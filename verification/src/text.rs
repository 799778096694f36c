//! Character-level text utilities shared by the parsers and renderers.
//!
//! Strings are modelled by their `Seq<char>` view. The helpers here give
//! executable counterparts (with exact contracts) for the handful of `str`
//! operations the library relies on: whitespace trimming, line splitting,
//! joining and decimal formatting.

use vstd::prelude::*;

verus! {

// ---------------------------------------------------------------------------
// Character classes
// ---------------------------------------------------------------------------

/// `A`..=`Z`.
pub open spec fn is_ascii_upper(c: char) -> bool {
    'A' <= c && c <= 'Z'
}

/// `a`..=`z`.
pub open spec fn is_ascii_lower(c: char) -> bool {
    'a' <= c && c <= 'z'
}

/// ASCII letters.
pub open spec fn is_ascii_alpha(c: char) -> bool {
    is_ascii_upper(c) || is_ascii_lower(c)
}

/// `0`..=`9`.
pub open spec fn is_ascii_digit(c: char) -> bool {
    '0' <= c && c <= '9'
}

/// The Unicode `White_Space` property, as used by `char::is_whitespace`.
pub open spec fn is_whitespace(c: char) -> bool {
    ||| c == ' '
    ||| ('\u{9}' <= c && c <= '\u{d}')
    ||| c == '\u{85}'
    ||| c == '\u{a0}'
    ||| c == '\u{1680}'
    ||| ('\u{2000}' <= c && c <= '\u{200a}')
    ||| c == '\u{2028}'
    ||| c == '\u{2029}'
    ||| c == '\u{202f}'
    ||| c == '\u{205f}'
    ||| c == '\u{3000}'
}

pub fn char_is_whitespace(c: char) -> (r: bool)
    ensures
        r == is_whitespace(c),
{
    c == ' ' || ('\u{9}' <= c && c <= '\u{d}') || c == '\u{85}' || c == '\u{a0}' || c
        == '\u{1680}' || ('\u{2000}' <= c && c <= '\u{200a}') || c == '\u{2028}' || c
        == '\u{2029}' || c == '\u{202f}' || c == '\u{205f}' || c == '\u{3000}'
}

pub fn char_is_ascii_upper(c: char) -> (r: bool)
    ensures
        r == is_ascii_upper(c),
{
    'A' <= c && c <= 'Z'
}

pub fn char_is_ascii_alpha(c: char) -> (r: bool)
    ensures
        r == is_ascii_alpha(c),
{
    ('A' <= c && c <= 'Z') || ('a' <= c && c <= 'z')
}

pub fn char_is_ascii_digit(c: char) -> (r: bool)
    ensures
        r == is_ascii_digit(c),
{
    '0' <= c && c <= '9'
}

// ---------------------------------------------------------------------------
// Conversions between `str`, `String` and `Vec<char>`
// ---------------------------------------------------------------------------

/// The characters of a string slice.
pub fn chars_of(s: &str) -> (v: Vec<char>)
    ensures
        v@ == s@,
{
    let mut v: Vec<char> = Vec::new();
    for c in it: s.chars()
        invariant
            it.seq() == s@,
            v@ == s@.take(it.index() as int),
    {
        v.push(c);
        assert(v@ =~= s@.take(it.index() + 1));
    }
    assert(v@ =~= s@);
    v
}

/// Appends one character to a `String` (`String::push`).
#[verifier::external_body]
pub(crate) fn push_char(s: &mut String, c: char)
    ensures
        final(s)@ == old(s)@.push(c),
{
    s.push(c);
}

/// Builds a `String` from a run of characters.
pub fn string_from_chars(v: &[char]) -> (s: String)
    ensures
        s@ == v@,
{
    let mut s = String::new();
    let mut i: usize = 0;
    while i < v.len()
        invariant
            i <= v@.len(),
            s@ == v@.take(i as int),
        decreases v@.len() - i,
    {
        push_char(&mut s, v[i]);
        i = i + 1;
        assert(s@ =~= v@.take(i as int));
    }
    assert(s@ =~= v@);
    s
}

/// Builds a `String` from the characters `v[lo..hi]`.
pub fn string_from_range(v: &[char], lo: usize, hi: usize) -> (s: String)
    requires
        lo <= hi <= v@.len(),
    ensures
        s@ == v@.subrange(lo as int, hi as int),
{
    let mut s = String::new();
    let mut i: usize = lo;
    while i < hi
        invariant
            lo <= i <= hi <= v@.len(),
            s@ == v@.subrange(lo as int, i as int),
        decreases hi - i,
    {
        push_char(&mut s, v[i]);
        i = i + 1;
        assert(s@ =~= v@.subrange(lo as int, i as int));
    }
    s
}

/// Appends a run of characters to a `String`.
pub fn push_chars(s: &mut String, v: &[char])
    ensures
        final(s)@ == old(s)@ + v@,
{
    let ghost start = s@;
    let mut i: usize = 0;
    while i < v.len()
        invariant
            i <= v@.len(),
            s@ == start + v@.take(i as int),
        decreases v@.len() - i,
    {
        push_char(s, v[i]);
        i = i + 1;
        assert(s@ =~= start + v@.take(i as int));
    }
    assert(v@.take(v@.len() as int) =~= v@);
}

/// Appends a string slice to a `String`.
pub fn push_str(s: &mut String, t: &str)
    ensures
        final(s)@ == old(s)@ + t@,
{
    let v = chars_of(t);
    push_chars(s, v.as_slice());
}

/// A fresh `String` holding the characters of `t`.
pub fn string_of(t: &str) -> (s: String)
    ensures
        s@ == t@,
{
    let mut s = String::new();
    push_str(&mut s, t);
    assert(s@ =~= t@);
    s
}

/// Character-wise equality of two runs of characters.
pub fn chars_eq(a: &[char], b: &[char]) -> (r: bool)
    ensures
        r == (a@ == b@),
{
    if a.len() != b.len() {
        return false;
    }
    let mut i: usize = 0;
    while i < a.len()
        invariant
            a@.len() == b@.len(),
            i <= a@.len(),
            forall|j: int| 0 <= j < i ==> a@[j] == b@[j],
        decreases a@.len() - i,
    {
        if a[i] != b[i] {
            return false;
        }
        i = i + 1;
    }
    assert(a@ =~= b@);
    true
}

/// Equality of two strings by their characters.
pub fn str_eq(a: &str, b: &str) -> (r: bool)
    ensures
        r == (a@ == b@),
{
    let va = chars_of(a);
    let vb = chars_of(b);
    chars_eq(va.as_slice(), vb.as_slice())
}

/// Copies a `String` (`String::clone` is specified by vstd).
pub fn copy_string(s: &String) -> (r: String)
    ensures
        r@ == s@,
{
    s.clone()
}

// ---------------------------------------------------------------------------
// Trimming
// ---------------------------------------------------------------------------

/// `str::trim_start`: drop leading whitespace.
pub open spec fn trim_start(s: Seq<char>) -> Seq<char>
    decreases s.len(),
{
    if s.len() > 0 && is_whitespace(s[0]) {
        trim_start(s.drop_first())
    } else {
        s
    }
}

/// `str::trim_end`: drop trailing whitespace.
pub open spec fn trim_end(s: Seq<char>) -> Seq<char>
    decreases s.len(),
{
    if s.len() > 0 && is_whitespace(s.last()) {
        trim_end(s.drop_last())
    } else {
        s
    }
}

/// `str::trim`: drop leading and trailing whitespace.
pub open spec fn trim(s: Seq<char>) -> Seq<char> {
    trim_end(trim_start(s))
}

/// Every character is whitespace.
pub open spec fn all_whitespace(s: Seq<char>) -> bool {
    forall|i: int| 0 <= i < s.len() ==> is_whitespace(#[trigger] s[i])
}

pub proof fn lemma_trim_start_skip(s: Seq<char>, i: int)
    requires
        0 <= i <= s.len(),
        forall|j: int| 0 <= j < i ==> is_whitespace(#[trigger] s[j]),
    ensures
        trim_start(s) == trim_start(s.skip(i)),
    decreases i,
{
    if i > 0 {
        assert(is_whitespace(s[0]));
        let t = s.drop_first();
        assert forall|j: int| 0 <= j < i - 1 implies is_whitespace(#[trigger] t[j]) by {
            assert(t[j] == s[j + 1]);
        }
        lemma_trim_start_skip(t, i - 1);
        assert(t.skip(i - 1) =~= s.skip(i));
    } else {
        assert(s.skip(0) =~= s);
    }
}

pub proof fn lemma_trim_end_take(s: Seq<char>, i: int)
    requires
        0 <= i <= s.len(),
        forall|j: int| i <= j < s.len() ==> is_whitespace(#[trigger] s[j]),
    ensures
        trim_end(s) == trim_end(s.take(i)),
    decreases s.len() - i,
{
    if i < s.len() {
        assert(is_whitespace(s.last()));
        let t = s.drop_last();
        assert forall|j: int| i <= j < t.len() implies is_whitespace(#[trigger] t[j]) by {
            assert(t[j] == s[j]);
        }
        lemma_trim_end_take(t, i);
        assert(t.take(i) =~= s.take(i));
    } else {
        assert(s.take(i) =~= s);
    }
}

/// `trim` of a string is empty exactly when the string is all whitespace.
pub proof fn lemma_trim_empty_iff(s: Seq<char>)
    ensures
        (trim(s).len() == 0) == all_whitespace(s),
        trim_start(s).len() == 0 ==> all_whitespace(s),
        all_whitespace(s) ==> trim_start(s).len() == 0,
    decreases s.len(),
{
    if s.len() > 0 && is_whitespace(s[0]) {
        lemma_trim_empty_iff(s.drop_first());
        if all_whitespace(s.drop_first()) {
            assert forall|i: int| 0 <= i < s.len() implies is_whitespace(#[trigger] s[i]) by {
                if i > 0 {
                    assert(s[i] == s.drop_first()[i - 1]);
                }
            }
        }
        if all_whitespace(s) {
            assert forall|i: int|
                0 <= i < s.drop_first().len() implies is_whitespace(
                #[trigger] s.drop_first()[i],
            ) by {
                assert(s.drop_first()[i] == s[i + 1]);
            }
        }
        lemma_trim_start_nonempty_end(s);
    } else {
        lemma_trim_start_nonempty_end(s);
        if s.len() > 0 {
            assert(!all_whitespace(s));
        }
    }
}

/// When `trim_start(s)` is non-empty its first character is not whitespace,
/// so `trim_end` keeps it.
proof fn lemma_trim_start_nonempty_end(s: Seq<char>)
    ensures
        trim_start(s).len() > 0 ==> !is_whitespace(trim_start(s)[0]),
        trim_start(s).len() > 0 ==> trim(s).len() > 0,
    decreases s.len(),
{
    if s.len() > 0 && is_whitespace(s[0]) {
        lemma_trim_start_nonempty_end(s.drop_first());
    } else if s.len() > 0 {
        lemma_trim_end_keeps_first(s);
    }
}

proof fn lemma_trim_end_keeps_first(s: Seq<char>)
    requires
        s.len() > 0,
        !is_whitespace(s[0]),
    ensures
        trim_end(s).len() > 0,
        trim_end(s)[0] == s[0],
    decreases s.len(),
{
    if is_whitespace(s.last()) {
        assert(s.len() > 1);
        lemma_trim_end_keeps_first(s.drop_last());
    }
}

/// `trim_start(s) == s.skip(i)`.
pub fn trim_start_index(s: &[char]) -> (i: usize)
    ensures
        i <= s@.len(),
        trim_start(s@) == s@.skip(i as int),
        forall|j: int| 0 <= j < i ==> is_whitespace(#[trigger] s@[j]),
        i < s@.len() ==> !is_whitespace(s@[i as int]),
{
    let mut i: usize = 0;
    while i < s.len() && char_is_whitespace(s[i])
        invariant
            i <= s@.len(),
            forall|j: int| 0 <= j < i ==> is_whitespace(#[trigger] s@[j]),
        decreases s@.len() - i,
    {
        i = i + 1;
    }
    proof {
        lemma_trim_start_skip(s@, i as int);
    }
    i
}

/// `trim_end(s[lo..]) == s[lo..hi]`.
pub fn trim_end_index(s: &[char], lo: usize) -> (hi: usize)
    requires
        lo <= s@.len(),
    ensures
        lo <= hi <= s@.len(),
        trim_end(s@.subrange(lo as int, s@.len() as int)) == s@.subrange(lo as int, hi as int),
{
    let mut hi: usize = s.len();
    while hi > lo && char_is_whitespace(s[hi - 1])
        invariant
            lo <= hi <= s@.len(),
            forall|j: int| hi <= j < s@.len() ==> is_whitespace(#[trigger] s@[j]),
        decreases hi,
    {
        hi = hi - 1;
    }
    proof {
        let t = s@.subrange(lo as int, s@.len() as int);
        assert forall|j: int| hi - lo <= j < t.len() implies is_whitespace(#[trigger] t[j]) by {
            assert(t[j] == s@[lo + j]);
        }
        lemma_trim_end_take(t, hi - lo);
        assert(t.take(hi - lo) =~= s@.subrange(lo as int, hi as int));
        if hi > lo {
            let u = s@.subrange(lo as int, hi as int);
            assert(u.last() == s@[hi - 1]);
        }
    }
    hi
}

/// `trim(s) == s[lo..hi]`.
pub fn trim_bounds(s: &[char]) -> (r: (usize, usize))
    ensures
        r.0 <= r.1 <= s@.len(),
        trim(s@) == s@.subrange(r.0 as int, r.1 as int),
{
    let lo = trim_start_index(s);
    let hi = trim_end_index(s, lo);
    assert(s@.skip(lo as int) =~= s@.subrange(lo as int, s@.len() as int));
    (lo, hi)
}

/// Whether the characters are all whitespace (so that `trim` leaves nothing).
pub fn is_blank(s: &[char]) -> (r: bool)
    ensures
        r == all_whitespace(s@),
        r == (trim(s@).len() == 0),
{
    proof {
        lemma_trim_empty_iff(s@);
    }
    let i = trim_start_index(s);
    i == s.len()
}

/// The trimmed copy of a run of characters.
pub fn trimmed(s: &[char]) -> (r: Vec<char>)
    ensures
        r@ == trim(s@),
{
    let (lo, hi) = trim_bounds(s);
    slice_range(s, lo, hi)
}

/// A copy of `s[lo..hi]`.
pub fn slice_range(s: &[char], lo: usize, hi: usize) -> (r: Vec<char>)
    requires
        lo <= hi <= s@.len(),
    ensures
        r@ == s@.subrange(lo as int, hi as int),
{
    let mut r: Vec<char> = Vec::new();
    let mut i: usize = lo;
    while i < hi
        invariant
            lo <= i <= hi <= s@.len(),
            r@ == s@.subrange(lo as int, i as int),
        decreases hi - i,
    {
        r.push(s[i]);
        i = i + 1;
        assert(r@ =~= s@.subrange(lo as int, i as int));
    }
    r
}

// ---------------------------------------------------------------------------
// Lines
// ---------------------------------------------------------------------------

/// Drops one trailing carriage return.
pub open spec fn strip_cr(s: Seq<char>) -> Seq<char> {
    if s.len() > 0 && s.last() == '\r' {
        s.drop_last()
    } else {
        s
    }
}

/// Index of the first occurrence of `c` in `s`, if any.
pub open spec fn find_char(s: Seq<char>, c: char) -> Option<int>
    decreases s.len(),
{
    if s.len() == 0 {
        None
    } else if s[0] == c {
        Some(0)
    } else {
        match find_char(s.drop_first(), c) {
            Some(i) => Some(i + 1),
            None => None,
        }
    }
}

pub proof fn lemma_find_char(s: Seq<char>, c: char)
    ensures
        find_char(s, c) matches Some(i) ==> 0 <= i < s.len() && s[i] == c && forall|j: int|
            0 <= j < i ==> s[j] != c,
        find_char(s, c) is None ==> forall|j: int| 0 <= j < s.len() ==> s[j] != c,
    decreases s.len(),
{
    if s.len() > 0 && s[0] != c {
        lemma_find_char(s.drop_first(), c);
        if let Some(i) = find_char(s.drop_first(), c) {
            assert forall|j: int| 0 <= j < i + 1 implies s[j] != c by {
                if j > 0 {
                    assert(s[j] == s.drop_first()[j - 1]);
                }
            }
        } else {
            assert forall|j: int| 0 <= j < s.len() implies s[j] != c by {
                if j > 0 {
                    assert(s[j] == s.drop_first()[j - 1]);
                }
            }
        }
    }
}

/// The first occurrence of `c` is at `k` when `s[k] == c` and no earlier
/// character is `c`.
pub proof fn lemma_find_char_at(s: Seq<char>, c: char, k: int)
    requires
        0 <= k < s.len(),
        s[k] == c,
        forall|j: int| 0 <= j < k ==> s[j] != c,
    ensures
        find_char(s, c) == Some(k),
{
    lemma_find_char(s, c);
    match find_char(s, c) {
        Some(i) => {
            if i < k {
                assert(s[i] != c);
            }
            if i > k {
                assert(s[k] != c);
            }
        },
        None => {
            assert(s[k] != c);
        },
    }
}

/// `str::lines`: split at `\n`, drop a `\r` before each `\n`, and drop a
/// final empty line after a trailing `\n`.
pub open spec fn lines(s: Seq<char>) -> Seq<Seq<char>>
    decreases s.len(),
{
    if s.len() == 0 {
        Seq::empty()
    } else {
        match find_char(s, '\n') {
            None => seq![s],
            Some(i) => {
                if 0 <= i < s.len() {
                    seq![strip_cr(s.take(i))] + lines(s.skip(i + 1))
                } else {
                    Seq::empty()
                }
            },
        }
    }
}

/// Drops one trailing carriage return from a line.
pub fn strip_cr_vec(v: Vec<char>) -> (r: Vec<char>)
    ensures
        r@ == strip_cr(v@),
{
    let mut v = v;
    if v.len() > 0 && v[v.len() - 1] == '\r' {
        v.pop();
    }
    v
}

/// The lines of a run of characters, as `str::lines` yields them.
pub fn split_lines(s: &[char]) -> (r: Vec<Vec<char>>)
    ensures
        r@.len() == lines(s@).len(),
        forall|k: int| 0 <= k < r@.len() ==> #[trigger] r@[k]@ == lines(s@)[k],
{
    let mut out: Vec<Vec<char>> = Vec::new();
    let mut cur: Vec<char> = Vec::new();
    let mut i: usize = 0;
    proof {
        assert(cur@ + s@.skip(0) =~= s@);
        assert(out@.map_values(|l: Vec<char>| l@) + lines(s@) =~= lines(s@));
    }
    while i < s.len()
        invariant
            i <= s@.len(),
            forall|j: int| 0 <= j < cur@.len() ==> cur@[j] != '\n',
            lines(s@) == out@.map_values(|l: Vec<char>| l@) + lines(cur@ + s@.skip(i as int)),
        decreases s@.len() - i,
    {
        let c = s[i];
        let ghost old_out = out@.map_values(|l: Vec<char>| l@);
        let ghost old_cur = cur@;
        if c == '\n' {
            proof {
                let t = old_cur + s@.skip(i as int);
                assert(t[old_cur.len() as int] == '\n');
                assert forall|j: int| 0 <= j < old_cur.len() implies t[j] != '\n' by {
                    assert(t[j] == old_cur[j]);
                }
                lemma_find_char_at(t, '\n', old_cur.len() as int);
                assert(t.take(old_cur.len() as int) =~= old_cur);
                assert(t.skip(old_cur.len() as int + 1) =~= s@.skip(i + 1));
                assert(lines(t) == seq![strip_cr(old_cur)] + lines(s@.skip(i + 1)));
            }
            let line = strip_cr_vec(cur);
            out.push(line);
            cur = Vec::new();
            proof {
                assert(out@.map_values(|l: Vec<char>| l@) =~= old_out.push(strip_cr(old_cur)));
                assert(cur@ + s@.skip(i + 1) =~= s@.skip(i + 1));
                assert(old_out + (seq![strip_cr(old_cur)] + lines(s@.skip(i + 1))) =~= old_out.push(
                    strip_cr(old_cur),
                ) + lines(s@.skip(i + 1)));
            }
        } else {
            cur.push(c);
            proof {
                assert(cur@ + s@.skip(i + 1) =~= old_cur + s@.skip(i as int));
            }
        }
        i = i + 1;
    }
    let ghost outv = out@.map_values(|l: Vec<char>| l@);
    proof {
        assert(s@.skip(s@.len() as int) =~= Seq::<char>::empty());
        assert(cur@ + Seq::<char>::empty() =~= cur@);
        lemma_find_char(cur@, '\n');
    }
    if cur.len() > 0 {
        out.push(cur);
        proof {
            assert(out@.map_values(|l: Vec<char>| l@) =~= outv + lines(cur@));
        }
    } else {
        proof {
            assert(outv + lines(cur@) =~= outv);
        }
    }
    proof {
        let ov = out@.map_values(|l: Vec<char>| l@);
        assert forall|k: int| 0 <= k < out@.len() implies #[trigger] out@[k]@ == lines(s@)[k] by {
            assert(ov[k] == out@[k]@);
        }
    }
    out
}


/// `str::split` on a single character.
pub open spec fn split(s: Seq<char>, c: char) -> Seq<Seq<char>>
    decreases s.len(),
{
    match find_char(s, c) {
        None => seq![s],
        Some(i) => {
            if 0 <= i < s.len() {
                seq![s.take(i)] + split(s.skip(i + 1), c)
            } else {
                seq![s]
            }
        },
    }
}

/// The pieces of `s` between occurrences of `sep`.
pub fn split_on(s: &[char], sep: char) -> (r: Vec<Vec<char>>)
    ensures
        r@.len() == split(s@, sep).len(),
        forall|k: int| 0 <= k < r@.len() ==> #[trigger] r@[k]@ == split(s@, sep)[k],
{
    let mut out: Vec<Vec<char>> = Vec::new();
    let mut cur: Vec<char> = Vec::new();
    let mut i: usize = 0;
    proof {
        assert(cur@ + s@.skip(0) =~= s@);
        assert(out@.map_values(|l: Vec<char>| l@) + split(s@, sep) =~= split(s@, sep));
    }
    while i < s.len()
        invariant
            i <= s@.len(),
            forall|j: int| 0 <= j < cur@.len() ==> cur@[j] != sep,
            split(s@, sep) == out@.map_values(|l: Vec<char>| l@) + split(
                cur@ + s@.skip(i as int),
                sep,
            ),
        decreases s@.len() - i,
    {
        let c = s[i];
        let ghost old_out = out@.map_values(|l: Vec<char>| l@);
        let ghost old_cur = cur@;
        if c == sep {
            proof {
                let t = old_cur + s@.skip(i as int);
                assert(t[old_cur.len() as int] == sep);
                assert forall|j: int| 0 <= j < old_cur.len() implies t[j] != sep by {
                    assert(t[j] == old_cur[j]);
                }
                lemma_find_char_at(t, sep, old_cur.len() as int);
                assert(t.take(old_cur.len() as int) =~= old_cur);
                assert(t.skip(old_cur.len() as int + 1) =~= s@.skip(i + 1));
            }
            out.push(cur);
            cur = Vec::new();
            proof {
                assert(out@.map_values(|l: Vec<char>| l@) =~= old_out.push(old_cur));
                assert(cur@ + s@.skip(i + 1) =~= s@.skip(i + 1));
                assert(old_out + (seq![old_cur] + split(s@.skip(i + 1), sep)) =~= old_out.push(
                    old_cur,
                ) + split(s@.skip(i + 1), sep));
            }
        } else {
            cur.push(c);
            proof {
                assert(cur@ + s@.skip(i + 1) =~= old_cur + s@.skip(i as int));
            }
        }
        i = i + 1;
    }
    let ghost outv = out@.map_values(|l: Vec<char>| l@);
    proof {
        assert(s@.skip(s@.len() as int) =~= Seq::<char>::empty());
        assert(cur@ + Seq::<char>::empty() =~= cur@);
        lemma_find_char(cur@, sep);
    }
    out.push(cur);
    proof {
        assert(out@.map_values(|l: Vec<char>| l@) =~= outv + split(cur@, sep));
        let ov = out@.map_values(|l: Vec<char>| l@);
        assert forall|k: int| 0 <= k < out@.len() implies #[trigger] out@[k]@ == split(
            s@,
            sep,
        )[k] by {
            assert(ov[k] == out@[k]@);
        }
    }
    out
}

/// Joins pieces with a separator, as `[T]::join` does.
pub open spec fn join(parts: Seq<Seq<char>>, sep: Seq<char>) -> Seq<char>
    decreases parts.len(),
{
    if parts.len() == 0 {
        Seq::empty()
    } else if parts.len() == 1 {
        parts[0]
    } else {
        join(parts.drop_last(), sep) + sep + parts.last()
    }
}

/// Joins `parts[lo..hi]` with a separator.
pub fn join_range(parts: &Vec<Vec<char>>, lo: usize, hi: usize, sep: &[char]) -> (r: Vec<char>)
    requires
        lo <= hi <= parts@.len(),
    ensures
        r@ == join(parts@.subrange(lo as int, hi as int).map_values(|l: Vec<char>| l@), sep@),
{
    let mut r: Vec<char> = Vec::new();
    let mut i: usize = lo;
    while i < hi
        invariant
            lo <= i <= hi <= parts@.len(),
            r@ == join(parts@.subrange(lo as int, i as int).map_values(|l: Vec<char>| l@), sep@),
        decreases hi - i,
    {
        let ghost prev = parts@.subrange(lo as int, i as int).map_values(|l: Vec<char>| l@);
        let ghost next = parts@.subrange(lo as int, i + 1).map_values(|l: Vec<char>| l@);
        proof {
            assert(next.drop_last() =~= prev);
            assert(next.last() == parts@[i as int]@);
        }
        if i > lo {
            append_chars(&mut r, sep);
        }
        append_chars(&mut r, parts[i].as_slice());
        proof {
            if i == lo {
                assert(next.len() == 1);
                assert(r@ =~= next[0]);
            }
        }
        i = i + 1;
    }
    r
}

/// Appends characters to a character vector.
pub fn append_chars(r: &mut Vec<char>, v: &[char])
    ensures
        final(r)@ == old(r)@ + v@,
{
    let ghost start = r@;
    let mut i: usize = 0;
    while i < v.len()
        invariant
            i <= v@.len(),
            r@ == start + v@.take(i as int),
        decreases v@.len() - i,
    {
        r.push(v[i]);
        i = i + 1;
        assert(r@ =~= start + v@.take(i as int));
    }
    assert(v@.take(v@.len() as int) =~= v@);
}


// ---------------------------------------------------------------------------
// Ordering
// ---------------------------------------------------------------------------

/// `a` sorts strictly before `b` character by character, a proper prefix
/// first; for UTF-8 strings this is the order of `str`'s `Ord`, which
/// compares bytes.
pub open spec fn text_lt(a: Seq<char>, b: Seq<char>) -> bool
    decreases a.len(),
{
    if a.len() == 0 {
        b.len() > 0
    } else if b.len() == 0 {
        false
    } else if a[0] != b[0] {
        a[0] < b[0]
    } else {
        text_lt(a.drop_first(), b.drop_first())
    }
}

pub proof fn lemma_text_lt_irrefl(a: Seq<char>)
    ensures
        !text_lt(a, a),
    decreases a.len(),
{
    if a.len() > 0 {
        lemma_text_lt_irrefl(a.drop_first());
    }
}

pub proof fn lemma_text_lt_total(a: Seq<char>, b: Seq<char>)
    requires
        a != b,
    ensures
        text_lt(a, b) || text_lt(b, a),
    decreases a.len(),
{
    if a.len() > 0 && b.len() > 0 && a[0] == b[0] {
        if a.drop_first() == b.drop_first() {
            assert(a =~= seq![a[0]] + a.drop_first());
            assert(b =~= seq![b[0]] + b.drop_first());
        }
        lemma_text_lt_total(a.drop_first(), b.drop_first());
    } else if a.len() == 0 && b.len() == 0 {
        assert(a =~= b);
    }
}

pub proof fn lemma_text_lt_trans(a: Seq<char>, b: Seq<char>, c: Seq<char>)
    requires
        text_lt(a, b),
        text_lt(b, c),
    ensures
        text_lt(a, c),
    decreases a.len(),
{
    if a.len() > 0 && b.len() > 0 && c.len() > 0 && a[0] == b[0] && b[0] == c[0] {
        lemma_text_lt_trans(a.drop_first(), b.drop_first(), c.drop_first());
    }
}

pub proof fn lemma_text_lt_asym(a: Seq<char>, b: Seq<char>)
    requires
        text_lt(a, b),
    ensures
        !text_lt(b, a),
{
    if text_lt(b, a) {
        lemma_text_lt_trans(a, b, a);
        lemma_text_lt_irrefl(a);
    }
}

/// Whether `a` sorts strictly before `b`.
pub fn str_lt(a: &str, b: &str) -> (r: bool)
    ensures
        r == text_lt(a@, b@),
{
    let av = chars_of(a);
    let bv = chars_of(b);
    proof {
        assert(av@.skip(0) =~= av@);
        assert(bv@.skip(0) =~= bv@);
    }
    let mut i: usize = 0;
    while i < av.len() && i < bv.len() && av[i] == bv[i]
        invariant
            i <= av@.len(),
            i <= bv@.len(),
            text_lt(a@, b@) == text_lt(av@.skip(i as int), bv@.skip(i as int)),
        decreases av@.len() - i,
    {
        proof {
            assert(av@.skip(i as int).drop_first() =~= av@.skip(i + 1));
            assert(bv@.skip(i as int).drop_first() =~= bv@.skip(i + 1));
        }
        i = i + 1;
    }
    if i == av.len() {
        return i < bv.len();
    }
    if i == bv.len() {
        return false;
    }
    av[i] < bv[i]
}

} // verus!
