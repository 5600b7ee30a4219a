//! Verified helpers for working with strings at the character level.
//!
//! Exec code in this crate manipulates text through the char-indexed
//! operations that vstd specifies (`unicode_len`, `get_char`,
//! `substring_char`), so every contract below speaks about `Seq<char>`
//! views.

use vstd::prelude::*;
use vstd::string::StrSliceExecFns;
use vstd::string::StringExecFns;

verus! {

/// Relies on String::push: appends exactly one character to the string.
#[verifier::external_body]
pub fn push_char(s: &mut String, c: char)
    ensures
        final(s)@ == old(s)@.push(c),
{
    s.push(c)
}

/// Name for what char::is_whitespace returns: whether the character has the
/// Unicode White_Space property, a function of the character alone.
pub uninterp spec fn is_whitespace_char(c: char) -> bool;

/// Relies on char::is_whitespace. The listed facts are the ones the
/// documentation gives plainly: the ASCII space, tab, newline and carriage
/// return are whitespace, and no printable ASCII character besides the space
/// is.
#[verifier::external_body]
pub fn char_is_whitespace(c: char) -> (r: bool)
    ensures
        r == is_whitespace_char(c),
        c == ' ' || c == '\n' || c == '\t' || c == '\r' ==> r,
        33 <= c as u32 <= 126 ==> !r,
{
    c.is_whitespace()
}

/// True when `pat` occurs in `s` starting at character index `i`.
pub open spec fn matches_at(s: Seq<char>, pat: Seq<char>, i: int) -> bool {
    0 <= i && i + pat.len() <= s.len() && s.subrange(i, i + pat.len() as int) == pat
}

/// Character-wise string equality, `r == (a@ == b@)`.
pub fn str_eq(a: &str, b: &str) -> (r: bool)
    ensures
        r == (a@ == b@),
{
    let n = a.unicode_len();
    let m = b.unicode_len();
    if n != m {
        return false;
    }
    let mut i: usize = 0;
    while i < n
        invariant
            i <= n,
            n == a@.len(),
            n == b@.len(),
            forall|j: int| 0 <= j < i ==> a@[j] == b@[j],
        decreases n - i,
    {
        if a.get_char(i) != b.get_char(i) {
            assert(a@ != b@);
            return false;
        }
        i += 1;
    }
    proof {
        assert(a@ =~= b@);
    }
    true
}

pub fn str_starts_with(s: &str, prefix: &str) -> (r: bool)
    ensures
        r == matches_at(s@, prefix@, 0),
{
    let n = prefix.unicode_len();
    let m = s.unicode_len();
    if n > m {
        return false;
    }
    let mut i: usize = 0;
    while i < n
        invariant
            i <= n,
            n <= m,
            n == prefix@.len(),
            m == s@.len(),
            forall|j: int| 0 <= j < i ==> s@[j] == prefix@[j],
        decreases n - i,
    {
        if s.get_char(i) != prefix.get_char(i) {
            assert(s@.subrange(0, n as int)[i as int] != prefix@[i as int]);
            return false;
        }
        i += 1;
    }
    proof {
        assert(s@.subrange(0, n as int) =~= prefix@);
    }
    true
}

pub fn str_ends_with(s: &str, suffix: &str) -> (r: bool)
    ensures
        r == matches_at(s@, suffix@, s@.len() - suffix@.len()),
{
    let n = suffix.unicode_len();
    let m = s.unicode_len();
    if n > m {
        return false;
    }
    let off: usize = m - n;
    let mut i: usize = 0;
    while i < n
        invariant
            i <= n,
            off == m - n,
            n <= m,
            n == suffix@.len(),
            m == s@.len(),
            forall|j: int| 0 <= j < i ==> s@[off + j] == suffix@[j],
        decreases n - i,
    {
        if s.get_char(off + i) != suffix.get_char(i) {
            assert(s@.subrange(off as int, m as int)[i as int] != suffix@[i as int]);
            return false;
        }
        i += 1;
    }
    proof {
        assert(s@.subrange(off as int, m as int) =~= suffix@);
    }
    true
}

/// First occurrence of `pat` in `s` at character index `from` or later.
pub fn str_find(s: &str, pat: &str, from: usize) -> (r: Option<usize>)
    requires
        from <= s@.len(),
    ensures
        match r {
            Some(i) => from <= i && matches_at(s@, pat@, i as int) && forall|j: int|
                from <= j < i ==> !matches_at(s@, pat@, j),
            None => forall|j: int| from <= j ==> !matches_at(s@, pat@, j),
        },
{
    let n = pat.unicode_len();
    let m = s.unicode_len();
    if n > m {
        return None;
    }
    let lim: usize = m - n;
    if from > lim {
        return None;
    }
    let mut i: usize = from;
    loop
        invariant
            from <= i <= lim,
            lim == m - n,
            n <= m,
            n == pat@.len(),
            m == s@.len(),
            forall|j: int| from <= j < i ==> !matches_at(s@, pat@, j),
        decreases lim - i,
    {
        let cand = s.substring_char(i, i + n);
        if str_eq(cand, pat) {
            return Some(i);
        }
        if i == lim {
            return None;
        }
        i += 1;
    }
}

/// Index of the first occurrence of `pat` in `s` at or after `from`, or -1.
pub open spec fn first_match_idx(s: Seq<char>, pat: Seq<char>, from: int) -> int
    decreases s.len() - from + 1,
{
    if from < 0 || from + pat.len() > s.len() {
        -1
    } else if matches_at(s, pat, from) {
        from
    } else {
        first_match_idx(s, pat, from + 1)
    }
}

pub proof fn lemma_first_match_idx(s: Seq<char>, pat: Seq<char>, from: int)
    requires
        0 <= from,
    ensures
        first_match_idx(s, pat, from) >= 0 ==> from <= first_match_idx(s, pat, from) && matches_at(
            s,
            pat,
            first_match_idx(s, pat, from),
        ) && (forall|j: int| from <= j < first_match_idx(s, pat, from) ==> !matches_at(s, pat, j)),
        first_match_idx(s, pat, from) < 0 ==> first_match_idx(s, pat, from) == -1 && forall|j: int|
            from <= j ==> !matches_at(s, pat, j),
    decreases s.len() - from + 1,
{
    if from + pat.len() > s.len() {
    } else if matches_at(s, pat, from) {
    } else {
        lemma_first_match_idx(s, pat, from + 1);
    }
}

/// `str_find`, restated against `first_match_idx`.
pub fn str_find_idx(s: &str, pat: &str, from: usize) -> (r: Option<usize>)
    requires
        from <= s@.len(),
    ensures
        ({
            let idx = first_match_idx(s@, pat@, from as int);
            match r {
                Some(i) => i == idx,
                None => idx == -1,
            }
        }),
{
    let r = str_find(s, pat, from);
    proof {
        lemma_first_match_idx(s@, pat@, from as int);
        let idx = first_match_idx(s@, pat@, from as int);
        match r {
            Some(i) => {
                assert(matches_at(s@, pat@, i as int));
                if idx < 0 {
                    assert(!matches_at(s@, pat@, i as int));
                }
                if 0 <= idx < i {
                    assert(!matches_at(s@, pat@, idx));
                }
                if idx > i {
                    assert(!matches_at(s@, pat@, i as int));
                }
            },
            None => {
                if idx >= 0 {
                    assert(!matches_at(s@, pat@, idx));
                }
            },
        }
    }
    r
}

/// Index of the first occurrence of character `c` at or after `from`, or -1.
pub open spec fn first_char_idx(s: Seq<char>, c: char, from: int) -> int
    decreases s.len() - from + 1,
{
    if from < 0 || from >= s.len() {
        -1
    } else if s[from] == c {
        from
    } else {
        first_char_idx(s, c, from + 1)
    }
}

pub proof fn lemma_first_char_idx(s: Seq<char>, c: char, from: int)
    requires
        0 <= from,
    ensures
        first_char_idx(s, c, from) >= 0 ==> from <= first_char_idx(s, c, from) < s.len() && s[
            first_char_idx(s, c, from)
        ] == c && (forall|j: int| from <= j < first_char_idx(s, c, from) ==> s[j] != c),
        first_char_idx(s, c, from) < 0 ==> first_char_idx(s, c, from) == -1 && forall|j: int|
            from <= j < s.len() ==> s[j] != c,
    decreases s.len() - from + 1,
{
    if from >= s.len() {
    } else if s[from] == c {
    } else {
        lemma_first_char_idx(s, c, from + 1);
    }
}

/// Index of the last occurrence of character `c`, or -1.
pub open spec fn last_char_idx(s: Seq<char>, c: char) -> int
    decreases s.len(),
{
    if s.len() == 0 {
        -1
    } else if s.last() == c {
        s.len() - 1
    } else {
        last_char_idx(s.drop_last(), c)
    }
}

pub proof fn lemma_last_char_idx(s: Seq<char>, c: char)
    ensures
        last_char_idx(s, c) >= 0 ==> last_char_idx(s, c) < s.len() && s[last_char_idx(s, c)] == c
            && (forall|j: int| last_char_idx(s, c) < j < s.len() ==> s[j] != c),
        last_char_idx(s, c) < 0 ==> last_char_idx(s, c) == -1 && forall|j: int|
            0 <= j < s.len() ==> s[j] != c,
    decreases s.len(),
{
    if s.len() == 0 {
    } else if s.last() == c {
    } else {
        lemma_last_char_idx(s.drop_last(), c);
        assert(forall|j: int| 0 <= j < s.len() - 1 ==> s.drop_last()[j] == s[j]);
    }
}

/// Find the first occurrence of a character at or after `from`.
pub fn str_find_char(s: &str, c: char, from: usize) -> (r: Option<usize>)
    ensures
        ({
            let idx = first_char_idx(s@, c, from as int);
            match r {
                Some(i) => i == idx,
                None => idx == -1,
            }
        }),
{
    proof {
        lemma_first_char_idx(s@, c, from as int);
    }
    let n = s.unicode_len();
    let mut i: usize = from;
    while i < n
        invariant
            from <= i,
            n == s@.len(),
            forall|j: int| from <= j < i ==> s@[j] != c,
        decreases n - i,
    {
        if s.get_char(i) == c {
            proof {
                lemma_first_char_idx(s@, c, from as int);
                let idx = first_char_idx(s@, c, from as int);
                assert(s@[i as int] == c);
                if idx < 0 {
                    assert(s@[i as int] != c);
                }
                if 0 <= idx < i {
                    assert(s@[idx] != c);
                }
                if idx > i {
                    assert(s@[i as int] != c);
                }
            }
            return Some(i);
        }
        i += 1;
    }
    proof {
        lemma_first_char_idx(s@, c, from as int);
        let idx = first_char_idx(s@, c, from as int);
        if idx >= 0 {
            assert(s@[idx] != c);
        }
    }
    None
}

/// Find the last occurrence of a character.
pub fn str_rfind_char(s: &str, c: char) -> (r: Option<usize>)
    ensures
        ({
            let idx = last_char_idx(s@, c);
            match r {
                Some(i) => i == idx,
                None => idx == -1,
            }
        }),
{
    proof {
        lemma_last_char_idx(s@, c);
    }
    let n = s.unicode_len();
    let mut i: usize = n;
    while i > 0
        invariant
            i <= n,
            n == s@.len(),
            forall|j: int| i <= j < n ==> s@[j] != c,
        decreases i,
    {
        i -= 1;
        if s.get_char(i) == c {
            proof {
                lemma_last_char_idx(s@, c);
                let idx = last_char_idx(s@, c);
                if idx < 0 {
                    assert(s@[i as int] == c);
                } else if idx < i {
                    assert(s@[i as int] == c);
                } else if idx > i {
                    assert(s@[idx] != c);
                }
            }
            return Some(i);
        }
    }
    proof {
        lemma_last_char_idx(s@, c);
        let idx = last_char_idx(s@, c);
        if idx >= 0 {
            assert(s@[idx] != c);
        }
    }
    None
}

// ---------------------------------------------------------------------------
// Trimming
// ---------------------------------------------------------------------------

pub open spec fn ws_prefix_len(s: Seq<char>) -> nat
    decreases s.len(),
{
    if s.len() == 0 || !is_whitespace_char(s[0]) {
        0
    } else {
        1 + ws_prefix_len(s.drop_first())
    }
}

pub open spec fn ws_suffix_len(s: Seq<char>) -> nat
    decreases s.len(),
{
    if s.len() == 0 || !is_whitespace_char(s.last()) {
        0
    } else {
        1 + ws_suffix_len(s.drop_last())
    }
}

/// The string with leading and trailing whitespace removed.
pub open spec fn spec_trim(s: Seq<char>) -> Seq<char> {
    if ws_prefix_len(s) == s.len() {
        Seq::empty()
    } else {
        s.subrange(ws_prefix_len(s) as int, s.len() - ws_suffix_len(s))
    }
}

proof fn lemma_ws_prefix(s: Seq<char>)
    ensures
        ws_prefix_len(s) <= s.len(),
        forall|k: int| 0 <= k < ws_prefix_len(s) ==> is_whitespace_char(s[k]),
        ws_prefix_len(s) < s.len() ==> !is_whitespace_char(s[ws_prefix_len(s) as int]),
    decreases s.len(),
{
    if s.len() == 0 || !is_whitespace_char(s[0]) {
    } else {
        lemma_ws_prefix(s.drop_first());
        assert forall|k: int| 0 <= k < ws_prefix_len(s) implies is_whitespace_char(s[k]) by {
            if k > 0 {
                assert(s.drop_first()[k - 1] == s[k]);
            }
        }
        if ws_prefix_len(s) < s.len() {
            assert(s.drop_first()[ws_prefix_len(s) - 1] == s[ws_prefix_len(s) as int]);
        }
    }
}

proof fn lemma_ws_suffix(s: Seq<char>)
    ensures
        ws_suffix_len(s) <= s.len(),
        forall|k: int| s.len() - ws_suffix_len(s) <= k < s.len() ==> is_whitespace_char(s[k]),
        ws_suffix_len(s) < s.len() ==> !is_whitespace_char(
            s[s.len() - ws_suffix_len(s) - 1],
        ),
    decreases s.len(),
{
    if s.len() == 0 || !is_whitespace_char(s.last()) {
    } else {
        lemma_ws_suffix(s.drop_last());
        assert forall|k: int| s.len() - ws_suffix_len(s) <= k < s.len() implies is_whitespace_char(
            s[k],
        ) by {
            if k < s.len() - 1 {
                assert(s.drop_last()[k] == s[k]);
            }
        }
        if ws_suffix_len(s) < s.len() {
            assert(s.drop_last()[s.len() - ws_suffix_len(s) - 1] == s[s.len() - ws_suffix_len(s)
                - 1]);
        }
    }
}

/// Leading and trailing whitespace removed, exactly `spec_trim`.
pub fn str_trim(s: &str) -> (r: &str)
    ensures
        r@ == spec_trim(s@),
{
    proof {
        lemma_ws_prefix(s@);
        lemma_ws_suffix(s@);
    }
    let n = s.unicode_len();
    let mut i: usize = 0;
    while i < n && char_is_whitespace(s.get_char(i))
        invariant
            i <= n,
            n == s@.len(),
            forall|k: int| 0 <= k < i ==> is_whitespace_char(s@[k]),
        decreases n - i,
    {
        i += 1;
    }
    if i == n {
        assert(ws_prefix_len(s@) == s@.len()) by {
            if ws_prefix_len(s@) < s@.len() {
                assert(is_whitespace_char(s@[ws_prefix_len(s@) as int]));
            }
        }
        let r = s.substring_char(n, n);
        assert(r@ =~= spec_trim(s@));
        return r;
    }
    assert(i == ws_prefix_len(s@)) by {
        if i < ws_prefix_len(s@) {
            assert(is_whitespace_char(s@[i as int]));
        }
        if i > ws_prefix_len(s@) {
            assert(is_whitespace_char(s@[ws_prefix_len(s@) as int]));
        }
    }
    let mut j: usize = n;
    while j > i && char_is_whitespace(s.get_char(j - 1))
        invariant
            i <= j <= n,
            n == s@.len(),
            i < n,
            !is_whitespace_char(s@[i as int]),
            forall|k: int| j <= k < n ==> is_whitespace_char(s@[k]),
        decreases j,
    {
        j -= 1;
    }
    assert(j > i);
    assert(!is_whitespace_char(s@[j - 1]));
    assert(n - j == ws_suffix_len(s@)) by {
        if n - j < ws_suffix_len(s@) {
            assert(is_whitespace_char(s@[j - 1]));
        }
        if n - j > ws_suffix_len(s@) {
            assert(is_whitespace_char(s@[s@.len() - ws_suffix_len(s@) - 1]));
        }
    }
    let r = s.substring_char(i, j);
    assert(r@ =~= spec_trim(s@));
    r
}

// ---------------------------------------------------------------------------
// Decimal numbers
// ---------------------------------------------------------------------------

pub open spec fn digit_char(d: int) -> char {
    if d == 0 {
        '0'
    } else if d == 1 {
        '1'
    } else if d == 2 {
        '2'
    } else if d == 3 {
        '3'
    } else if d == 4 {
        '4'
    } else if d == 5 {
        '5'
    } else if d == 6 {
        '6'
    } else if d == 7 {
        '7'
    } else if d == 8 {
        '8'
    } else {
        '9'
    }
}

/// The decimal digits of `n`, most significant first, no leading zeros.
pub open spec fn spec_digits(n: nat) -> Seq<char>
    decreases n,
{
    if n < 10 {
        seq![digit_char(n as int)]
    } else {
        spec_digits(n / 10).push(digit_char((n % 10) as int))
    }
}

fn digit_char_of(d: usize) -> (c: char)
    requires
        d < 10,
    ensures
        c == digit_char(d as int),
{
    if d == 0 {
        '0'
    } else if d == 1 {
        '1'
    } else if d == 2 {
        '2'
    } else if d == 3 {
        '3'
    } else if d == 4 {
        '4'
    } else if d == 5 {
        '5'
    } else if d == 6 {
        '6'
    } else if d == 7 {
        '7'
    } else if d == 8 {
        '8'
    } else {
        '9'
    }
}

/// Decimal rendering of `n`.
pub fn usize_to_string(n: usize) -> (r: String)
    ensures
        r@ == spec_digits(n as nat),
    decreases n,
{
    if n < 10 {
        let mut s = String::new();
        push_char(&mut s, digit_char_of(n));
        assert(s@ =~= spec_digits(n as nat));
        s
    } else {
        let mut s = usize_to_string(n / 10);
        push_char(&mut s, digit_char_of(n % 10));
        s
    }
}

pub open spec fn is_digit(c: char) -> bool {
    48 <= c as u32 <= 57
}

pub open spec fn digit_val(c: char) -> nat {
    (c as u32 - 48) as nat
}

pub open spec fn all_digits(s: Seq<char>) -> bool {
    s.len() > 0 && forall|i: int| 0 <= i < s.len() ==> is_digit(s[i])
}

/// The value of a digit string, most significant digit first.
pub open spec fn digits_val(s: Seq<char>) -> nat
    decreases s.len(),
{
    if s.len() == 0 {
        0
    } else {
        digits_val(s.drop_last()) * 10 + digit_val(s.last())
    }
}

proof fn lemma_digits_val_take_mono(s: Seq<char>, k: int)
    requires
        0 <= k <= s.len(),
    ensures
        digits_val(s.take(k)) <= digits_val(s),
    decreases s.len() - k,
{
    if k < s.len() {
        lemma_digits_val_take_mono(s, k + 1);
        assert(s.take(k + 1).drop_last() =~= s.take(k));
        assert(digits_val(s.take(k + 1)) == digits_val(s.take(k)) * 10 + digit_val(
            s.take(k + 1).last(),
        ));
    } else {
        assert(s.take(k) =~= s);
    }
}

/// Parse a string of decimal digits; `None` when the string is empty, holds a
/// non-digit, or the value does not fit in usize.
pub fn parse_usize(s: &str) -> (r: Option<usize>)
    ensures
        match r {
            Some(v) => all_digits(s@) && v as nat == digits_val(s@),
            None => !all_digits(s@) || digits_val(s@) > usize::MAX,
        },
{
    let n = s.unicode_len();
    if n == 0 {
        return None;
    }
    let mut acc: usize = 0;
    let mut i: usize = 0;
    while i < n
        invariant
            i <= n,
            n == s@.len(),
            n > 0,
            forall|k: int| 0 <= k < i ==> is_digit(s@[k]),
            acc as nat == digits_val(s@.take(i as int)),
        decreases n - i,
    {
        let c = s.get_char(i);
        let cu = c as u32;
        if cu < 48 || cu > 57 {
            return None;
        }
        let d: usize = (cu - 48) as usize;
        if acc > (usize::MAX - d) / 10 {
            proof {
                assert(s@.take(i + 1).drop_last() =~= s@.take(i as int));
                assert(digits_val(s@.take(i + 1)) == acc * 10 + d);
                lemma_digits_val_take_mono(s@, i + 1);
            }
            return None;
        }
        proof {
            assert(s@.take(i + 1).drop_last() =~= s@.take(i as int));
        }
        acc = acc * 10 + d;
        i += 1;
    }
    proof {
        assert(s@.take(n as int) =~= s@);
    }
    Some(acc)
}

// ---------------------------------------------------------------------------
// Splitting text into lines and joining lines back
// ---------------------------------------------------------------------------

/// Index of the first newline of `s`, or -1 when there is none.
pub open spec fn first_nl(s: Seq<char>) -> int
    decreases s.len(),
{
    if s.len() == 0 {
        -1
    } else if s[0] == '\n' {
        0
    } else {
        let r = first_nl(s.drop_first());
        if r < 0 {
            -1
        } else {
            1 + r
        }
    }
}

proof fn lemma_first_nl(s: Seq<char>)
    ensures
        first_nl(s) >= 0 ==> first_nl(s) < s.len() && s[first_nl(s)] == '\n' && forall|k: int|
            0 <= k < first_nl(s) ==> s[k] != '\n',
        first_nl(s) < 0 ==> first_nl(s) == -1 && forall|k: int| 0 <= k < s.len() ==> s[k] != '\n',
    decreases s.len(),
{
    if s.len() == 0 {
    } else if s[0] == '\n' {
    } else {
        let t = s.drop_first();
        lemma_first_nl(t);
        if first_nl(t) < 0 {
            assert forall|k: int| 0 <= k < s.len() implies s[k] != '\n' by {
                if k > 0 {
                    assert(t[k - 1] == s[k]);
                }
            }
        } else {
            assert(s[first_nl(s)] == t[first_nl(t)]);
            assert forall|k: int| 0 <= k < first_nl(s) implies s[k] != '\n' by {
                if k > 0 {
                    assert(t[k - 1] == s[k]);
                }
            }
        }
    }
}

/// The lines of `s`, each including its terminating newline; the last line
/// has no newline when `s` does not end with one. Empty text has no lines.
pub open spec fn line_split(s: Seq<char>) -> Seq<Seq<char>>
    decreases s.len(),
{
    if s.len() == 0 {
        Seq::empty()
    } else {
        let i = first_nl(s);
        if 0 <= i < s.len() && s[i] == '\n' {
            seq![s.take(i + 1)] + line_split(s.skip(i + 1))
        } else {
            seq![s]
        }
    }
}

/// Concatenation of a sequence of lines.
pub open spec fn concat_lines(ls: Seq<Seq<char>>) -> Seq<char>
    decreases ls.len(),
{
    if ls.len() == 0 {
        Seq::empty()
    } else {
        ls.first() + concat_lines(ls.drop_first())
    }
}

/// A line: nonempty, no newline before its final character.
pub open spec fn is_line(l: Seq<char>) -> bool {
    l.len() > 0 && forall|k: int| 0 <= k < l.len() - 1 ==> l[k] != '\n'
}

/// Well-formed line sequence: every entry is a line and every entry except
/// possibly the last ends with a newline.
pub open spec fn lines_wf(ls: Seq<Seq<char>>) -> bool {
    forall|i: int|
        0 <= i < ls.len() ==> is_line(#[trigger] ls[i]) && (i < ls.len() - 1 ==> ls[i].last()
            == '\n')
}

pub proof fn lemma_line_split_props(s: Seq<char>)
    ensures
        lines_wf(line_split(s)),
        concat_lines(line_split(s)) == s,
        s.len() > 0 ==> line_split(s).len() > 0,
        s.len() == 0 ==> line_split(s).len() == 0,
    decreases s.len(),
{
    lemma_first_nl(s);
    if s.len() == 0 {
        assert(concat_lines(line_split(s)) =~= s);
    } else {
        let i = first_nl(s);
        if i < 0 {
            assert(line_split(s) =~= seq![s]);
            assert(seq![s].drop_first() =~= Seq::<Seq<char>>::empty());
            assert(concat_lines(seq![s]) == s + concat_lines(Seq::<Seq<char>>::empty()));
            assert(s + Seq::<char>::empty() =~= s);
        } else {
            lemma_line_split_props(s.skip(i + 1));
            let ls = line_split(s);
            assert(ls == seq![s.take(i + 1)] + line_split(s.skip(i + 1)));
            assert(ls.drop_first() =~= line_split(s.skip(i + 1)));
            assert(ls.first() == s.take(i + 1));
            assert(is_line(s.take(i + 1)));
            assert(s.take(i + 1).last() == '\n');
            assert(concat_lines(ls) == s.take(i + 1) + concat_lines(line_split(s.skip(i + 1))));
            assert(s.take(i + 1) + s.skip(i + 1) =~= s);
            assert(lines_wf(ls)) by {
                let tail = line_split(s.skip(i + 1));
                assert forall|j: int|
                    0 <= j < ls.len() implies is_line(#[trigger] ls[j]) && (j < ls.len() - 1
                    ==> ls[j].last() == '\n') by {
                    if j > 0 {
                        assert(ls[j] == tail[j - 1]);
                        assert(s.skip(i + 1).len() > 0);
                    }
                }
            }
        }
    }
}

/// A well-formed line sequence is the line split of its own concatenation.
pub proof fn lemma_line_split_of_concat(ls: Seq<Seq<char>>)
    requires
        lines_wf(ls),
    ensures
        line_split(concat_lines(ls)) == ls,
    decreases ls.len(),
{
    if ls.len() == 0 {
    } else {
        let s = concat_lines(ls);
        let l0 = ls.first();
        let rest = concat_lines(ls.drop_first());
        assert(is_line(l0));
        assert(s == l0 + rest);
        assert(s.len() >= l0.len());
        assert(forall|k: int| 0 <= k < l0.len() ==> s[k] == l0[k]);
        lemma_first_nl(s);
        lemma_line_split_of_concat(ls.drop_first());
        if ls.len() == 1 {
            assert(rest =~= Seq::<char>::empty());
            assert(s =~= l0);
            if first_nl(s) >= 0 {
                let i = first_nl(s);
                assert(s[i] == '\n');
                assert(i == l0.len() - 1);
                assert(s.take(i + 1) =~= l0);
                assert(s.skip(i + 1) =~= Seq::<char>::empty());
                assert(line_split(s) =~= ls);
            } else {
                assert(line_split(s) =~= ls);
            }
        } else {
            assert(l0.last() == '\n');
            assert(s[l0.len() - 1] == '\n');
            assert(first_nl(s) >= 0);
            let i = first_nl(s);
            assert(i <= l0.len() - 1);
            assert(i >= l0.len() - 1) by {
                if i < l0.len() - 1 {
                    assert(l0[i] == '\n');
                    assert(is_line(l0));
                }
            }
            assert(s.take(i + 1) =~= l0);
            assert(s.skip(i + 1) =~= rest);
            assert(line_split(s) =~= ls);
        }
    }
}

/// The views of a vector of strings.
pub open spec fn views(v: Seq<String>) -> Seq<Seq<char>> {
    v.map_values(|s: String| s@)
}

/// Split text into its lines, each keeping its terminating newline.
pub fn split_lines(s: &str) -> (r: Vec<String>)
    ensures
        views(r@) == line_split(s@),
    decreases s@.len(),
{
    proof {
        lemma_first_nl(s@);
        reveal_strlit("\n");
    }
    let n = s.unicode_len();
    if n == 0 {
        let r: Vec<String> = Vec::new();
        assert(views(r@) =~= line_split(s@));
        return r;
    }
    let nl = str_find(s, "\n", 0);
    match nl {
        None => {
            proof {
                assert forall|k: int| 0 <= k < s@.len() implies s@[k] != '\n' by {
                    if s@[k] == '\n' {
                        assert(s@.subrange(k, k + 1) =~= "\n"@);
                        assert(matches_at(s@, "\n"@, k));
                    }
                }
                if first_nl(s@) >= 0 {
                    assert(s@[first_nl(s@)] == '\n');
                }
            }
            let mut r: Vec<String> = Vec::new();
            r.push(s.to_owned());
            assert(views(r@) =~= line_split(s@));
            r
        },
        Some(i) => {
            proof {
                assert(seq![s@[i as int]] =~= s@.subrange(i as int, i + 1));
                assert(s@[i as int] == "\n"@[0]);
                assert(s@[i as int] == '\n');
                assert forall|k: int| 0 <= k < i implies s@[k] != '\n' by {
                    if s@[k] == '\n' {
                        assert(s@.subrange(k, k + 1) =~= "\n"@);
                        assert(matches_at(s@, "\n"@, k));
                    }
                }
                assert(first_nl(s@) == i) by {
                    if first_nl(s@) < 0 {
                        assert(s@[i as int] != '\n');
                    } else if first_nl(s@) < i {
                        assert(s@[first_nl(s@)] == '\n');
                    } else if first_nl(s@) > i {
                        assert(s@[i as int] != '\n');
                    }
                }
            }
            let line = s.substring_char(0, i + 1).to_owned();
            let rest = s.substring_char(i + 1, n);
            let mut r: Vec<String> = Vec::new();
            r.push(line);
            let mut tail = split_lines(rest);
            let mut k: usize = 0;
            let tlen = tail.len();
            while k < tlen
                invariant
                    k <= tlen,
                    tlen == tail@.len(),
                    views(tail@) == line_split(rest@),
                    r@.len() == 1 + k,
                    r@[0]@ == s@.take(i + 1),
                    forall|j: int| 0 <= j < k ==> r@[j + 1]@ == tail@[j]@,
                decreases tlen - k,
            {
                let item = tail[k].clone();
                r.push(item);
                k += 1;
            }
            proof {
                assert(rest@ == s@.skip(i + 1));
                assert(views(r@) =~= line_split(s@));
            }
            r
        },
    }
}

/// Concatenate the strings of `v` starting at index `from`.
pub fn join_from(v: &Vec<String>, from: usize) -> (r: String)
    requires
        from <= v@.len(),
    ensures
        r@ == concat_lines(views(v@).skip(from as int)),
    decreases v@.len() - from,
{
    if from == v.len() {
        let r = String::new();
        assert(r@ =~= concat_lines(views(v@).skip(from as int)));
        r
    } else {
        let head = v[from].clone();
        let tail = join_from(v, from + 1);
        let r = head.concat(tail.as_str());
        proof {
            let vs = views(v@).skip(from as int);
            assert(vs.first() == v@[from as int]@);
            assert(vs.drop_first() =~= views(v@).skip(from as int + 1));
        }
        r
    }
}

/// Concatenate all strings of `v`.
pub fn join_all(v: &Vec<String>) -> (r: String)
    ensures
        r@ == concat_lines(views(v@)),
{
    let r = join_from(v, 0);
    assert(views(v@).skip(0) =~= views(v@));
    r
}

// ---------------------------------------------------------------------------
// Searching among lines
// ---------------------------------------------------------------------------

/// Index of the first line at or after `from` that starts with `pre`, or -1.
pub open spec fn first_prefix_idx(ls: Seq<Seq<char>>, pre: Seq<char>, from: int) -> int
    decreases ls.len() - from,
{
    if from < 0 || from >= ls.len() {
        -1
    } else if matches_at(ls[from], pre, 0) {
        from
    } else {
        first_prefix_idx(ls, pre, from + 1)
    }
}

pub proof fn lemma_first_prefix_idx(ls: Seq<Seq<char>>, pre: Seq<char>, from: int)
    requires
        0 <= from,
    ensures
        first_prefix_idx(ls, pre, from) >= 0 ==> from <= first_prefix_idx(ls, pre, from)
            < ls.len() && matches_at(ls[first_prefix_idx(ls, pre, from)], pre, 0) && (forall|j: int|
            from <= j < first_prefix_idx(ls, pre, from) ==> !matches_at(#[trigger] ls[j], pre, 0)),
        first_prefix_idx(ls, pre, from) < 0 ==> first_prefix_idx(ls, pre, from) == -1 && forall|
            j: int,
        | from <= j < ls.len() ==> !matches_at(#[trigger] ls[j], pre, 0),
    decreases ls.len() - from,
{
    if from >= ls.len() {
    } else if matches_at(ls[from], pre, 0) {
    } else {
        lemma_first_prefix_idx(ls, pre, from + 1);
    }
}

/// Index of the first line at or after `from` equal to `target`, or -1.
pub open spec fn first_eq_idx(ls: Seq<Seq<char>>, target: Seq<char>, from: int) -> int
    decreases ls.len() - from,
{
    if from < 0 || from >= ls.len() {
        -1
    } else if ls[from] == target {
        from
    } else {
        first_eq_idx(ls, target, from + 1)
    }
}

pub proof fn lemma_first_eq_idx(ls: Seq<Seq<char>>, target: Seq<char>, from: int)
    requires
        0 <= from,
    ensures
        first_eq_idx(ls, target, from) >= 0 ==> from <= first_eq_idx(ls, target, from) < ls.len()
            && ls[first_eq_idx(ls, target, from)] == target && (forall|j: int|
            from <= j < first_eq_idx(ls, target, from) ==> #[trigger] ls[j] != target),
        first_eq_idx(ls, target, from) < 0 ==> first_eq_idx(ls, target, from) == -1 && forall|
            j: int,
        | from <= j < ls.len() ==> #[trigger] ls[j] != target,
    decreases ls.len() - from,
{
    if from >= ls.len() {
    } else if ls[from] == target {
    } else {
        lemma_first_eq_idx(ls, target, from + 1);
    }
}

/// Find the first line at index `from` or later that starts with `prefix`.
pub fn find_line_with_prefix(lines: &Vec<String>, prefix: &str, from: usize) -> (r: Option<usize>)
    ensures
        ({
            let idx = first_prefix_idx(views(lines@), prefix@, from as int);
            match r {
                Some(i) => i == idx,
                None => idx == -1,
            }
        }),
{
    let ghost ls = views(lines@);
    let n = lines.len();
    let mut i: usize = from;
    while i < n
        invariant
            from <= i,
            n == lines@.len(),
            ls == views(lines@),
            forall|j: int| from <= j < i ==> !matches_at(#[trigger] ls[j], prefix@, 0),
        decreases n - i,
    {
        if str_starts_with(lines[i].as_str(), prefix) {
            proof {
                lemma_first_prefix_idx(ls, prefix@, from as int);
                let idx = first_prefix_idx(ls, prefix@, from as int);
                assert(matches_at(ls[i as int], prefix@, 0));
                if idx < 0 {
                    assert(!matches_at(ls[i as int], prefix@, 0));
                }
                if 0 <= idx < i {
                    assert(!matches_at(ls[idx], prefix@, 0));
                }
                if idx > i {
                    assert(!matches_at(ls[i as int], prefix@, 0));
                }
            }
            return Some(i);
        }
        i += 1;
    }
    proof {
        lemma_first_prefix_idx(ls, prefix@, from as int);
        let idx = first_prefix_idx(ls, prefix@, from as int);
        if idx >= 0 {
            assert(!matches_at(ls[idx], prefix@, 0));
        }
    }
    None
}

/// Find the first line at index `from` or later equal to `target`.
pub fn find_line_eq(lines: &Vec<String>, target: &str, from: usize) -> (r: Option<usize>)
    ensures
        ({
            let idx = first_eq_idx(views(lines@), target@, from as int);
            match r {
                Some(i) => i == idx,
                None => idx == -1,
            }
        }),
{
    let ghost ls = views(lines@);
    let n = lines.len();
    let mut i: usize = from;
    while i < n
        invariant
            from <= i,
            n == lines@.len(),
            ls == views(lines@),
            forall|j: int| from <= j < i ==> #[trigger] ls[j] != target@,
        decreases n - i,
    {
        if str_eq(lines[i].as_str(), target) {
            proof {
                lemma_first_eq_idx(ls, target@, from as int);
                let idx = first_eq_idx(ls, target@, from as int);
                assert(ls[i as int] == target@);
                if idx < 0 {
                    assert(ls[i as int] != target@);
                }
                if 0 <= idx < i {
                    assert(ls[idx] != target@);
                }
                if idx > i {
                    assert(ls[i as int] != target@);
                }
            }
            return Some(i);
        }
        i += 1;
    }
    proof {
        lemma_first_eq_idx(ls, target@, from as int);
        let idx = first_eq_idx(ls, target@, from as int);
        if idx >= 0 {
            assert(ls[idx] != target@);
        }
    }
    None
}

/// Whether the string ends with a newline character.
pub fn ends_with_nl(s: &str) -> (r: bool)
    ensures
        r == (s@.len() > 0 && s@.last() == '\n'),
{
    let n = s.unicode_len();
    if n == 0 {
        false
    } else {
        s.get_char(n - 1) == '\n'
    }
}

/// Append copies of all strings of `src` to `dst`.
pub fn append_strings(dst: &mut Vec<String>, src: &Vec<String>)
    ensures
        views(final(dst)@) == views(old(dst)@) + views(src@),
{
    let ghost pre = views(dst@);
    let n = src.len();
    let mut i: usize = 0;
    while i < n
        invariant
            i <= n,
            n == src@.len(),
            pre == views(old(dst)@),
            dst@.len() == old(dst)@.len() + i,
            forall|j: int| 0 <= j < pre.len() ==> views(dst@)[j] == pre[j],
            forall|j: int| 0 <= j < i ==> views(dst@)[pre.len() + j] == views(src@)[j],
        decreases n - i,
    {
        dst.push(src[i].clone());
        i += 1;
    }
    proof {
        assert(views(dst@) =~= pre + views(src@));
    }
}


/// Whether some string of `v` has exactly the characters of `s`.
pub fn contains_string(v: &Vec<String>, s: &str) -> (r: bool)
    ensures
        r == views(v@).contains(s@),
{
    let n = v.len();
    let mut i: usize = 0;
    while i < n
        invariant
            i <= n,
            n == v@.len(),
            forall|j: int| 0 <= j < i ==> views(v@)[j] != s@,
        decreases n - i,
    {
        if str_eq(v[i].as_str(), s) {
            proof {
                assert(views(v@)[i as int] == s@);
            }
            return true;
        }
        i += 1;
    }
    proof {
        if views(v@).contains(s@) {
            let j = choose|j: int| 0 <= j < views(v@).len() && views(v@)[j] == s@;
            assert(views(v@)[j] != s@);
        }
    }
    false
}

/// Copies of the strings of `v` with indices in `[from, to)`.
pub fn vec_subrange(v: &Vec<String>, from: usize, to: usize) -> (r: Vec<String>)
    requires
        from <= to <= v@.len(),
    ensures
        views(r@) == views(v@).subrange(from as int, to as int),
{
    let mut r: Vec<String> = Vec::new();
    let mut i: usize = from;
    while i < to
        invariant
            from <= i <= to <= v@.len(),
            r@.len() == i - from,
            forall|k: int| 0 <= k < r@.len() ==> r@[k]@ == v@[from + k]@,
        decreases to - i,
    {
        r.push(v[i].clone());
        i += 1;
    }
    assert(views(r@) =~= views(v@).subrange(from as int, to as int));
    r
}

} // verus!
