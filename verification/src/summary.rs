//! The requirements section of an mdBook `SUMMARY.md`.
//!
//! The section is generated into a region of the file delimited by two
//! marker comments; everything outside the markers belongs to the user and
//! is left as it is. Links point from the summary's folder to each
//! requirement file, with `..` and `.` resolved lexically.

use vstd::prelude::*;

use crate::text::{
    chars_eq, chars_of, join, join_range, push_chars, push_str, slice_range, split, split_on,
    string_from_chars, string_of,
};

verus! {

/// The marker that opens the generated region.
pub open spec fn start_marker() -> Seq<char> {
    "<!-- requiem:summary:start -->"@
}

/// The marker that closes the generated region.
pub open spec fn end_marker() -> Seq<char> {
    "<!-- requiem:summary:end -->"@
}

/// `p` occurs in `s` at position `i`.
pub open spec fn occurs_at(s: Seq<char>, p: Seq<char>, i: int) -> bool {
    0 <= i && i + p.len() <= s.len() && s.subrange(i, i + p.len()) == p
}

/// `p` occurs in `s` at or after position `from`.
pub open spec fn occurs_from(s: Seq<char>, p: Seq<char>, from: int) -> bool {
    exists|i: int| from <= i && #[trigger] occurs_at(s, p, i)
}

/// `i` is the first position at or after `from` where `p` occurs in `s`.
pub open spec fn is_first_from(s: Seq<char>, p: Seq<char>, from: int, i: int) -> bool {
    &&& from <= i
    &&& occurs_at(s, p, i)
    &&& forall|j: int| from <= j < i ==> !#[trigger] occurs_at(s, p, j)
}

/// The first position at or after `from` where `p` occurs in `s`.
pub open spec fn first_from(s: Seq<char>, p: Seq<char>, from: int) -> int {
    choose|i: int| is_first_from(s, p, from, i)
}

/// Why the generated region could not be replaced.
#[derive(Debug, PartialEq, Eq)]
pub enum SpliceError {
    /// There is no start marker.
    MissingStart,
    /// There is no end marker after the start marker.
    MissingEnd,
    /// A second start marker follows the first.
    MultipleStart,
    /// A second end marker follows the first one after the start marker.
    MultipleEnd,
}

impl SpliceError {
    /// The error message.
    pub fn to_string(&self) -> (r: String)
        ensures
            r@ == match self {
                SpliceError::MissingStart => "no '"@ + start_marker()
                    + "' marker found. Add the following to the file where generated entries should go:\n\n"@
                    + start_marker() + "\n"@ + end_marker(),
                SpliceError::MissingEnd => "found '"@ + start_marker() + "' but no matching '"@ + end_marker()
                    + "' marker after it"@,
                SpliceError::MultipleStart => "multiple '"@ + start_marker() + "' markers found; expected exactly one"@,
                SpliceError::MultipleEnd => "multiple '"@ + end_marker() + "' markers found; expected exactly one"@,
            },
    {
        let start = "<!-- requiem:summary:start -->";
        let end = "<!-- requiem:summary:end -->";
        match self {
            SpliceError::MissingStart => {
                let mut r = string_of("no '");
                push_str(&mut r, start);
                push_str(&mut r, "' marker found. Add the following to the file where generated entries should go:\n\n");
                push_str(&mut r, start);
                push_str(&mut r, "\n");
                push_str(&mut r, end);
                r
            },
            SpliceError::MissingEnd => {
                let mut r = string_of("found '");
                push_str(&mut r, start);
                push_str(&mut r, "' but no matching '");
                push_str(&mut r, end);
                push_str(&mut r, "' marker after it");
                r
            },
            SpliceError::MultipleStart => {
                let mut r = string_of("multiple '");
                push_str(&mut r, start);
                push_str(&mut r, "' markers found; expected exactly one");
                r
            },
            SpliceError::MultipleEnd => {
                let mut r = string_of("multiple '");
                push_str(&mut r, end);
                push_str(&mut r, "' markers found; expected exactly one");
                r
            },
        }
    }
}

/// The document with its generated region replaced by `block`, or the reason
/// it cannot be: the start marker must occur exactly once, and an end marker
/// must follow it exactly once.
pub open spec fn spliced(existing: Seq<char>, block: Seq<char>) -> Result<Seq<char>, SpliceError> {
    let sm = start_marker();
    let em = end_marker();
    if !occurs_from(existing, sm, 0) {
        Err(SpliceError::MissingStart)
    } else {
        let start = first_from(existing, sm, 0);
        let after = start + sm.len();
        if !occurs_from(existing, em, after) {
            Err(SpliceError::MissingEnd)
        } else {
            let end = first_from(existing, em, after);
            if occurs_from(existing, sm, after) {
                Err(SpliceError::MultipleStart)
            } else if occurs_from(existing, em, end + em.len()) {
                Err(SpliceError::MultipleEnd)
            } else {
                Ok(existing.take(start) + sm + "\n"@ + block + existing.skip(end))
            }
        }
    }
}

/// The markers hold `<` only as their first character.
proof fn lemma_markers_open_once()
    ensures
        start_marker().len() > 1 && start_marker()[0] == '<',
        end_marker().len() > 1 && end_marker()[0] == '<',
        forall|k: int| 1 <= k < start_marker().len() ==> #[trigger] start_marker()[k] != '<',
        forall|k: int| 1 <= k < end_marker().len() ==> #[trigger] end_marker()[k] != '<',
{
    reveal_strlit("<!-- requiem:summary:start -->");
    reveal_strlit("<!-- requiem:summary:end -->");
}

fn matches_at(s: &[char], i: usize, p: &[char]) -> (r: bool)
    requires
        i + p@.len() <= s@.len(),
    ensures
        r == occurs_at(s@, p@, i as int),
{
    let n = s.len();
    let mut k: usize = 0;
    while k < p.len()
        invariant
            k <= p@.len(),
            n == s@.len(),
            i + p@.len() <= s@.len(),
            forall|t: int| 0 <= t < k ==> s@[i + t] == p@[t],
        decreases p@.len() - k,
    {
        if s[i + k] != p[k] {
            proof {
                assert(s@.subrange(i as int, i + p@.len())[k as int] != p@[k as int]);
            }
            return false;
        }
        k = k + 1;
    }
    assert(s@.subrange(i as int, i + p@.len()) =~= p@);
    true
}

/// The first position at or after `from` where `p` occurs in `s`.
fn find_from(s: &[char], from: usize, p: &[char]) -> (r: Option<usize>)
    ensures
        match r {
            Some(i) => is_first_from(s@, p@, from as int, i as int),
            None => !occurs_from(s@, p@, from as int),
        },
{
    if p.len() > s.len() {
        proof {
            assert forall|i: int| from <= i implies !#[trigger] occurs_at(s@, p@, i) by {}
        }
        return None;
    }
    let last = s.len() - p.len();
    let mut i: usize = from;
    while i < last
        invariant
            last == s@.len() - p@.len(),
            from <= i,
            forall|j: int| from <= j < i ==> !#[trigger] occurs_at(s@, p@, j),
        decreases last - i,
    {
        if matches_at(s, i, p) {
            return Some(i);
        }
        i = i + 1;
    }
    if i == last && matches_at(s, i, p) {
        return Some(i);
    }
    proof {
        assert forall|j: int| from <= j implies !#[trigger] occurs_at(s@, p@, j) by {
            if j >= i && j <= last {
                assert(j == last && i == last);
            }
        }
    }
    None
}

/// The first position where `p` occurs in `s`.
pub fn find_first(s: &[char], p: &[char]) -> (r: Option<usize>)
    ensures
        match r {
            Some(i) => is_first_from(s@, p@, 0, i as int),
            None => !occurs_from(s@, p@, 0),
        },
{
    find_from(s, 0, p)
}

pub proof fn lemma_first_from_unique(s: Seq<char>, p: Seq<char>, from: int, i: int)
    requires
        is_first_from(s, p, from, i),
    ensures
        first_from(s, p, from) == i,
        occurs_from(s, p, from),
{
    assert(occurs_at(s, p, i));
    let c = first_from(s, p, from);
    assert(is_first_from(s, p, from, c));
    if c < i {
        assert(!occurs_at(s, p, c));
    }
    if c > i {
        assert(!occurs_at(s, p, i));
    }
}

/// An occurrence of `m` in `s` at `j` is one in `e` at `j + off` when the
/// two texts agree there.
proof fn lemma_occurs_moved(s: Seq<char>, e: Seq<char>, m: Seq<char>, j: int, off: int)
    requires
        occurs_at(s, m, j),
        0 <= j + off,
        j + off + m.len() <= e.len(),
        forall|t: int| j <= t < j + m.len() ==> #[trigger] s[t] == e[t + off],
    ensures
        occurs_at(e, m, j + off),
{
    assert forall|k: int| 0 <= k < m.len() implies #[trigger] e.subrange(j + off, j + off + m.len())[k] == m[k] by {
        assert(s.subrange(j, j + m.len())[k] == m[k]);
        assert(s[j + k] == e[j + k + off]);
    }
    assert(e.subrange(j + off, j + off + m.len()) =~= m);
}

/// A marker does not occur from the newline after the start marker up to
/// the end marker when the new block does not hold it.
proof fn lemma_no_marker_between(s: Seq<char>, m: Seq<char>, block: Seq<char>, after: int, p: int)
    requires
        m.len() > 1,
        m[0] == '<',
        forall|k: int| 1 <= k < m.len() ==> #[trigger] m[k] != '<',
        0 <= after,
        p == after + 1 + block.len(),
        p < s.len(),
        s[after] == '\n',
        s[p] == '<',
        s.subrange(after + 1, p) == block,
        !occurs_from(block, m, 0),
    ensures
        forall|j: int| after <= j < p ==> !#[trigger] occurs_at(s, m, j),
{
    assert forall|j: int| after <= j < p implies !#[trigger] occurs_at(s, m, j) by {
        if occurs_at(s, m, j) {
            assert(s.subrange(j, j + m.len())[0] == m[0]);
            if j == after {
                assert(s[after] == m[0]);
            } else if j + m.len() <= p {
                let q = j - after - 1;
                assert forall|t: int| j <= t < j + m.len() implies #[trigger] s[t] == block[t - after - 1] by {
                    assert(s.subrange(after + 1, p)[t - after - 1] == s[t]);
                }
                lemma_occurs_moved(s, block, m, j, -(after + 1));
                assert(occurs_at(block, m, q));
            } else {
                assert(s.subrange(j, j + m.len())[p - j] == s[p]);
                assert(m[p - j] != '<');
            }
        }
    }
}

/// When `p` occurs at or after `from`, there is a first such position.
proof fn lemma_first_exists(s: Seq<char>, p: Seq<char>, from: int, i: int)
    requires
        from <= i,
        occurs_at(s, p, i),
    ensures
        is_first_from(s, p, from, first_from(s, p, from)),
    decreases i - from,
{
    if exists|j: int| from <= j < i && #[trigger] occurs_at(s, p, j) {
        let j = choose|j: int| from <= j < i && #[trigger] occurs_at(s, p, j);
        lemma_first_exists(s, p, from, j);
    } else {
        assert(is_first_from(s, p, from, i));
    }
}

/// The text with the region between `start` (where the start marker is)
/// and `end` (where the end marker is) replaced by `block`.
pub open spec fn replaced(e: Seq<char>, block: Seq<char>, start: int, end: int) -> Seq<char> {
    e.take(start) + start_marker() + "\n"@ + block + e.skip(end)
}

/// Where the replaced text agrees with the original one.
proof fn lemma_replaced_agrees(e: Seq<char>, block: Seq<char>, start: int, end: int)
    requires
        occurs_at(e, start_marker(), start),
        start + start_marker().len() <= end,
        occurs_at(e, end_marker(), end),
    ensures
        ({
            let s = replaced(e, block, start, end);
            let after = start + start_marker().len();
            let p = after + 1 + block.len();
            &&& s.len() == p + (e.len() - end)
            &&& forall|t: int| 0 <= t < after ==> #[trigger] s[t] == e[t]
            &&& forall|t: int| p <= t < s.len() ==> #[trigger] s[t] == e[t - p + end]
            &&& s[after] == '\n'
            &&& s.subrange(after + 1, p) == block
            &&& s[p] == '<'
            &&& occurs_at(s, start_marker(), start)
            &&& occurs_at(s, end_marker(), p)
            &&& s.take(start) + start_marker() + "\n"@ + block + s.skip(p) == s
        }),
{
    reveal_strlit("\n");
    lemma_markers_open_once();
    let sm = start_marker();
    let em = end_marker();
    let s = replaced(e, block, start, end);
    let after = start + sm.len();
    let p = after + 1 + block.len();
    assert forall|t: int| 0 <= t < after implies #[trigger] s[t] == e[t] by {
        if t >= start {
            assert(e.subrange(start, after)[t - start] == e[t]);
        }
    }
    assert(s.subrange(after + 1, p) =~= block);
    assert(e.subrange(end, end + em.len())[0] == em[0]);
    assert(s.subrange(start, after) =~= sm);
    assert forall|k: int| 0 <= k < em.len() implies #[trigger] s.subrange(p, p + em.len())[k] == em[k] by {
        assert(e.subrange(end, end + em.len())[k] == em[k]);
    }
    assert(s.subrange(p, p + em.len()) =~= em);
    assert(s.take(start) =~= e.take(start));
    assert(s.skip(p) =~= e.skip(end));
}

/// Replacing the generated region twice with the same block gives what
/// replacing it once gave, for a block that holds neither marker.
pub proof fn lemma_splice_idempotent(existing: Seq<char>, block: Seq<char>)
    requires
        spliced(existing, block) is Ok,
        !occurs_from(block, start_marker(), 0),
        !occurs_from(block, end_marker(), 0),
    ensures
        spliced(spliced(existing, block)->Ok_0, block) == spliced(existing, block),
{
    lemma_markers_open_once();
    let sm = start_marker();
    let em = end_marker();
    let e = existing;
    let start = first_from(e, sm, 0);
    let i0 = choose|i: int| 0 <= i && #[trigger] occurs_at(e, sm, i);
    lemma_first_exists(e, sm, 0, i0);
    let after = start + sm.len();
    let end = first_from(e, em, after);
    let i1 = choose|i: int| after <= i && #[trigger] occurs_at(e, em, i);
    lemma_first_exists(e, em, after, i1);
    let s = replaced(e, block, start, end);
    assert(spliced(e, block) == Ok::<Seq<char>, SpliceError>(s));
    lemma_replaced_agrees(e, block, start, end);
    let p = after + 1 + block.len();
    // The start marker still comes first at `start`.
    assert forall|j: int| 0 <= j < start implies !#[trigger] occurs_at(s, sm, j) by {
        if occurs_at(s, sm, j) {
            lemma_occurs_moved(s, e, sm, j, 0);
        }
    }
    lemma_first_from_unique(s, sm, 0, start);
    // The end marker now comes first at `p`.
    lemma_no_marker_between(s, em, block, after, p);
    assert(is_first_from(s, em, after, p));
    lemma_first_from_unique(s, em, after, p);
    // No second start marker.
    lemma_no_marker_between(s, sm, block, after, p);
    assert forall|j: int| after <= j implies !#[trigger] occurs_at(s, sm, j) by {
        if j >= p && occurs_at(s, sm, j) {
            lemma_occurs_moved(s, e, sm, j, end - p);
            assert(occurs_at(e, sm, j + end - p));
        }
    }
    // No second end marker.
    assert forall|j: int| p + em.len() <= j implies !#[trigger] occurs_at(s, em, j) by {
        if occurs_at(s, em, j) {
            lemma_occurs_moved(s, e, em, j, end - p);
            assert(occurs_at(e, em, j + end - p));
        }
    }
}

/// Replaces the generated region of `existing` with `block`, leaving the
/// text before the start marker and from the end marker on as it was.
pub fn splice(existing: &str, block: &str) -> (r: Result<String, SpliceError>)
    ensures
        match r {
            Ok(s) => spliced(existing@, block@) == Ok::<Seq<char>, SpliceError>(s@),
            Err(e) => spliced(existing@, block@) == Err::<Seq<char>, SpliceError>(e),
        },
{
    let text = chars_of(existing);
    let n = text.len();
    assert(n == text@.len());
    let sm = chars_of("<!-- requiem:summary:start -->");
    let em = chars_of("<!-- requiem:summary:end -->");
    let start = match find_from(text.as_slice(), 0, sm.as_slice()) {
        Some(i) => i,
        None => {
            return Err(SpliceError::MissingStart);
        },
    };
    proof {
        lemma_first_from_unique(text@, sm@, 0, start as int);
    }
    let after = start + sm.len();
    let end = match find_from(text.as_slice(), after, em.as_slice()) {
        Some(i) => i,
        None => {
            return Err(SpliceError::MissingEnd);
        },
    };
    proof {
        lemma_first_from_unique(text@, em@, after as int, end as int);
    }
    if find_from(text.as_slice(), after, sm.as_slice()).is_some() {
        return Err(SpliceError::MultipleStart);
    }
    let past = end + em.len();
    if find_from(text.as_slice(), past, em.as_slice()).is_some() {
        return Err(SpliceError::MultipleEnd);
    }
    let mut out = string_from_chars(slice_range(text.as_slice(), 0, start).as_slice());
    push_chars(&mut out, sm.as_slice());
    push_str(&mut out, "\n");
    push_str(&mut out, block);
    push_chars(&mut out, slice_range(text.as_slice(), end, text.len()).as_slice());
    proof {
        assert(text@.subrange(0, start as int) =~= existing@.take(start as int));
        assert(text@.subrange(end as int, text@.len() as int) =~= existing@.skip(end as int));
    }
    Ok(out)
}


// ---------------------------------------------------------------------------
// Relative links
// ---------------------------------------------------------------------------

/// The components of a path after lexical normalisation, given the pieces
/// between its separators: empty pieces and `.` are skipped, `..` drops the
/// component before it, and anything else is a component.
pub open spec fn normalized(pieces: Seq<Seq<char>>) -> Seq<Seq<char>>
    decreases pieces.len(),
{
    if pieces.len() == 0 {
        Seq::empty()
    } else {
        let prev = normalized(pieces.drop_last());
        let p = pieces.last();
        if p.len() == 0 || p == "."@ {
            prev
        } else if p == ".."@ {
            if prev.len() > 0 {
                prev.drop_last()
            } else {
                prev
            }
        } else {
            prev.push(p)
        }
    }
}

/// Lexically normalises a path into its components, resolving `.` and `..`.
pub fn normalize(path: &str) -> (r: Vec<String>)
    ensures
        r@.map_values(|c: String| c@) == normalized(split(path@, '/')),
{
    let chars = chars_of(path);
    let pieces = split_on(chars.as_slice(), '/');
    let ghost pv = split(path@, '/');
    let mut r: Vec<String> = Vec::new();
    let dot: Vec<char> = vec!['.'];
    let dotdot: Vec<char> = vec!['.', '.'];
    proof {
        reveal_strlit(".");
        reveal_strlit("..");
        assert(dot@ =~= "."@);
        assert(dotdot@ =~= ".."@);
    }
    let mut i: usize = 0;
    while i < pieces.len()
        invariant
            i <= pieces@.len(),
            pieces@.len() == pv.len(),
            forall|k: int| 0 <= k < pieces@.len() ==> #[trigger] pieces@[k]@ == pv[k],
            dot@ == "."@,
            dotdot@ == ".."@,
            r@.map_values(|c: String| c@) == normalized(pv.take(i as int)),
        decreases pieces@.len() - i,
    {
        let piece = &pieces[i];
        let ghost r0 = r@;
        proof {
            assert(pv.take(i + 1).drop_last() =~= pv.take(i as int));
            assert(pv.take(i + 1).last() == piece@);
        }
        if piece.len() == 0 || chars_eq(piece.as_slice(), dot.as_slice()) {
        } else if chars_eq(piece.as_slice(), dotdot.as_slice()) {
            if r.len() > 0 {
                r.pop();
                proof {
                    assert(r@.map_values(|c: String| c@) =~= r0.map_values(|c: String| c@).drop_last());
                }
            }
        } else {
            r.push(string_from_chars(piece.as_slice()));
            proof {
                assert(r@.map_values(|c: String| c@) =~= r0.map_values(|c: String| c@).push(piece@));
            }
        }
        i = i + 1;
    }
    proof {
        assert(pv.take(pieces@.len() as int) =~= pv);
    }
    r
}

/// `k` is the length of the longest common prefix of `a` and `b`.
pub open spec fn is_common_len(a: Seq<Seq<char>>, b: Seq<Seq<char>>, k: int) -> bool {
    &&& 0 <= k <= a.len()
    &&& k <= b.len()
    &&& forall|i: int| 0 <= i < k ==> #[trigger] a[i] == b[i]
    &&& k == a.len() || k == b.len() || a[k] != b[k]
}

/// The link from folder `from` to file `to` (both components of normalised
/// absolute paths): one `..` per folder to climb, then the rest of `to`,
/// prefixed with `.` unless it starts with `..`, joined with `/`.
pub open spec fn link_between(from: Seq<Seq<char>>, to: Seq<Seq<char>>) -> Seq<char> {
    let common = choose|k: int| is_common_len(from, to, k);
    let segs = Seq::new((from.len() - common) as nat, |_i: int| ".."@) + to.skip(common);
    let segs2 = if segs.len() > 0 && segs[0] == ".."@ {
        segs
    } else {
        seq!["."@] + segs
    };
    join(segs2, "/"@)
}

/// The markdown link target of `to` relative to the folder `from_dir`; both
/// are absolute paths, `..` is resolved lexically, and the result uses `/`.
pub fn relative_link(from_dir: &str, to: &str) -> (r: String)
    ensures
        r@ == link_between(normalized(split(from_dir@, '/')), normalized(split(to@, '/'))),
{
    let from = normalize(from_dir);
    let target = normalize(to);
    let ghost fv = from@.map_values(|c: String| c@);
    let ghost tv = target@.map_values(|c: String| c@);
    let mut common: usize = 0;
    while common < from.len() && common < target.len() && chars_eq(
        chars_of(from[common].as_str()).as_slice(),
        chars_of(target[common].as_str()).as_slice(),
    )
        invariant
            common <= from@.len(),
            common <= target@.len(),
            fv == from@.map_values(|c: String| c@),
            tv == target@.map_values(|c: String| c@),
            forall|i: int| 0 <= i < common ==> #[trigger] fv[i] == tv[i],
        decreases from@.len() - common,
    {
        proof {
            assert(fv[common as int] == from@[common as int]@);
            assert(tv[common as int] == target@[common as int]@);
        }
        common = common + 1;
    }
    proof {
        if common < from@.len() && common < target@.len() {
            assert(fv[common as int] == from@[common as int]@);
            assert(tv[common as int] == target@[common as int]@);
        }
        assert(is_common_len(fv, tv, common as int));
        let c = choose|k: int| is_common_len(fv, tv, k);
        assert(is_common_len(fv, tv, c));
        if c < common {
            assert(fv[c] == tv[c]);
        }
        if c > common {
            assert(fv[common as int] == tv[common as int]);
        }
        assert(c == common);
        reveal_strlit("..");
        reveal_strlit(".");
        reveal_strlit("/");
    }
    let mut segs: Vec<Vec<char>> = Vec::new();
    let up = from.len() - common;
    let mut k: usize = 0;
    while k < up
        invariant
            k <= up,
            segs@.map_values(|v: Vec<char>| v@) == Seq::new(k as nat, |_i: int| ".."@),
        decreases up - k,
    {
        let ghost s0 = segs@.map_values(|v: Vec<char>| v@);
        let dd: Vec<char> = vec!['.', '.'];
        proof {
            reveal_strlit("..");
            assert(dd@ =~= ".."@);
        }
        segs.push(dd);
        proof {
            assert(segs@.last()@ =~= ".."@);
            assert(segs@.map_values(|v: Vec<char>| v@) =~= s0.push(".."@));
            assert(segs@.map_values(|v: Vec<char>| v@) =~= Seq::new((k + 1) as nat, |_i: int| ".."@));
        }
        k = k + 1;
    }
    let mut t: usize = common;
    while t < target.len()
        invariant
            common <= t <= target@.len(),
            tv == target@.map_values(|c: String| c@),
            segs@.map_values(|v: Vec<char>| v@) == Seq::new(up as nat, |_i: int| ".."@) + tv.subrange(
                common as int,
                t as int,
            ),
        decreases target@.len() - t,
    {
        let ghost s0 = segs@.map_values(|v: Vec<char>| v@);
        segs.push(chars_of(target[t].as_str()));
        proof {
            assert(tv[t as int] == target@[t as int]@);
            assert(segs@.map_values(|v: Vec<char>| v@) =~= s0.push(tv[t as int]));
            assert(Seq::new(up as nat, |_i: int| ".."@) + tv.subrange(common as int, t + 1) =~= (Seq::new(
                up as nat,
                |_i: int| ".."@,
            ) + tv.subrange(common as int, t as int)).push(tv[t as int]));
        }
        t = t + 1;
    }
    let ghost sv = segs@.map_values(|v: Vec<char>| v@);
    proof {
        assert(tv.subrange(common as int, tv.len() as int) =~= tv.skip(common as int));
    }
    let starts_up = segs.len() > 0 && segs[0].len() == 2 && segs[0][0] == '.' && segs[0][1] == '.';
    proof {
        if segs@.len() > 0 {
            assert(sv[0] == segs@[0]@);
            if starts_up {
                assert(sv[0] =~= ".."@);
            }
            if sv[0] == ".."@ {
                assert(segs@[0]@.len() == 2);
            }
        }
    }
    if !starts_up {
        segs.insert(0, vec!['.']);
        proof {
            assert(segs@[0]@ =~= "."@);
            assert(segs@.map_values(|v: Vec<char>| v@) =~= seq!["."@] + sv);
        }
    }
    let slash: Vec<char> = vec!['/'];
    proof {
        assert(slash@ =~= "/"@);
        assert(segs@.subrange(0, segs@.len() as int) =~= segs@);
    }
    let joined = join_range(&segs, 0, segs.len(), slash.as_slice());
    string_from_chars(joined.as_slice())
}


// ---------------------------------------------------------------------------
// Rendering the section
// ---------------------------------------------------------------------------

/// One requirement, ready to render as a summary line.
#[derive(Debug, PartialEq, Eq, PartialOrd, Ord)]
pub struct Entry {
    /// Namespace segments (empty for requirements without a namespace).
    pub namespace: Vec<String>,
    /// The kind, e.g. `USR`.
    pub kind: String,
    /// The id within the namespace and kind.
    pub id: usize,
    /// The formatted HRID, e.g. `CORE-USR-001`.
    pub hrid: String,
    /// The title (may be empty).
    pub title: String,
    /// The link target relative to the summary's folder, with `/`.
    pub link: String,
}

/// The abstract content of an [`Entry`].
pub struct EntryView {
    pub namespace: Seq<Seq<char>>,
    pub kind: Seq<char>,
    pub id: nat,
    pub hrid: Seq<char>,
    pub title: Seq<char>,
    pub link: Seq<char>,
}

impl View for Entry {
    type V = EntryView;

    open spec fn view(&self) -> EntryView {
        EntryView {
            namespace: self.namespace@.map_values(|s: String| s@),
            kind: self.kind@,
            id: self.id as nat,
            hrid: self.hrid@,
            title: self.title@,
            link: self.link@,
        }
    }
}

/// `n` levels of two-space indentation.
pub open spec fn indent(n: nat) -> Seq<char>
    decreases n,
{
    if n == 0 {
        Seq::empty()
    } else {
        indent((n - 1) as nat) + "  "@
    }
}

/// The number of leading elements on which `a` and `b` agree.
pub open spec fn common_count(a: Seq<Seq<char>>, b: Seq<Seq<char>>) -> nat
    decreases a.len(),
{
    if a.len() == 0 || b.len() == 0 || a[0] != b[0] {
        0
    } else {
        1 + common_count(a.drop_first(), b.drop_first())
    }
}

/// A draft-chapter line `- [name]()` at the given depth.
pub open spec fn chapter_line(depth: nat, name: Seq<char>) -> Seq<char> {
    indent(depth) + "- ["@ + name + "]()\n"@
}

/// The chapter lines of the namespace segments from `from` on.
pub open spec fn namespace_lines(ns: Seq<Seq<char>>, from: nat) -> Seq<char>
    decreases ns.len() - from,
{
    if from >= ns.len() {
        Seq::empty()
    } else {
        chapter_line(from, ns[from as int]) + namespace_lines(ns, from + 1)
    }
}

/// The lines one entry adds after the entry `prev` (if any): chapter lines
/// for the namespace segments that differ from `prev`'s, a kind line when
/// the kind or namespace changed, and the entry's own link line.
pub open spec fn entry_lines(prev: Option<EntryView>, e: EntryView) -> Seq<char> {
    let prev_ns = match prev {
        Some(p) => p.namespace,
        None => Seq::empty(),
    };
    let common = common_count(prev_ns, e.namespace);
    let same_kind = match prev {
        Some(p) => common == prev_ns.len() && common == e.namespace.len() && p.kind == e.kind,
        None => false,
    };
    let kind_line = if same_kind {
        Seq::empty()
    } else {
        chapter_line(e.namespace.len(), e.kind)
    };
    let label = if e.title.len() == 0 {
        e.hrid
    } else {
        e.hrid + ": "@ + e.title
    };
    namespace_lines(e.namespace, common) + kind_line + indent(e.namespace.len() + 1) + "- ["@ + label
        + "]("@ + e.link + ")\n"@
}

/// The summary fragment for the first `n` entries.
pub open spec fn rendered(es: Seq<EntryView>, n: int) -> Seq<char>
    decreases n,
{
    if n <= 0 {
        Seq::empty()
    } else {
        let prev = if n >= 2 {
            Some(es[n - 2])
        } else {
            None
        };
        rendered(es, n - 1) + entry_lines(prev, es[n - 1])
    }
}

fn push_indent(out: &mut String, n: usize)
    ensures
        final(out)@ == old(out)@ + indent(n as nat),
{
    let mut k: usize = 0;
    while k < n
        invariant
            k <= n,
            out@ == old(out)@ + indent(k as nat),
        decreases n - k,
    {
        push_str(out, "  ");
        proof {
            reveal_strlit("  ");
            assert(out@ =~= old(out)@ + indent((k + 1) as nat));
        }
        k = k + 1;
    }
}

fn push_chapter(out: &mut String, depth: usize, name: &str)
    ensures
        final(out)@ == old(out)@ + chapter_line(depth as nat, name@),
{
    push_indent(out, depth);
    push_str(out, "- [");
    push_str(out, name);
    push_str(out, "]()\n");
    proof {
        assert(out@ =~= old(out)@ + chapter_line(depth as nat, name@));
    }
}

fn strings_equal(a: &String, b: &String) -> (r: bool)
    ensures
        r == (a@ == b@),
{
    crate::text::str_eq(a.as_str(), b.as_str())
}

proof fn lemma_common_count_bound(a: Seq<Seq<char>>, b: Seq<Seq<char>>)
    ensures
        common_count(a, b) <= a.len(),
        common_count(a, b) <= b.len(),
    decreases a.len(),
{
    if !(a.len() == 0 || b.len() == 0 || a[0] != b[0]) {
        lemma_common_count_bound(a.drop_first(), b.drop_first());
    }
}

/// The number of leading segments on which two namespaces agree.
fn common_len(pns: &Vec<String>, ns: &Vec<String>) -> (r: usize)
    ensures
        r == common_count(pns@.map_values(|s: String| s@), ns@.map_values(|s: String| s@)),
{
    let ghost a0 = pns@.map_values(|s: String| s@);
    let ghost b0 = ns@.map_values(|s: String| s@);
    proof {
        assert(a0.skip(0) =~= a0);
        assert(b0.skip(0) =~= b0);
    }
    let mut common: usize = 0;
    while common < pns.len() && common < ns.len() && strings_equal(&pns[common], &ns[common])
        invariant
            a0 == pns@.map_values(|s: String| s@),
            b0 == ns@.map_values(|s: String| s@),
            common <= pns@.len(),
            common <= ns@.len(),
            common_count(a0, b0) == common + common_count(a0.skip(common as int), b0.skip(common as int)),
        decreases pns@.len() - common,
    {
        proof {
            let a = a0.skip(common as int);
            let b = b0.skip(common as int);
            assert(a[0] == pns@[common as int]@);
            assert(b[0] == ns@[common as int]@);
            assert(a.drop_first() =~= a0.skip(common + 1));
            assert(b.drop_first() =~= b0.skip(common + 1));
        }
        common = common + 1;
    }
    proof {
        let a = a0.skip(common as int);
        let b = b0.skip(common as int);
        if common < pns@.len() && common < ns@.len() {
            assert(a[0] == pns@[common as int]@);
            assert(b[0] == ns@[common as int]@);
        }
        assert(common_count(a, b) == 0);
    }
    common
}

/// The previous entry's view, if any.
pub open spec fn prev_view(prev: Option<&Entry>) -> Option<EntryView> {
    match prev {
        Some(p) => Some(p@),
        None => None,
    }
}

/// The link line of an entry at its depth.
pub open spec fn link_line(e: EntryView) -> Seq<char> {
    let label = if e.title.len() == 0 {
        e.hrid
    } else {
        e.hrid + ": "@ + e.title
    };
    indent(e.namespace.len() + 1) + "- ["@ + label + "]("@ + e.link + ")\n"@
}

fn push_link_line(out: &mut String, e: &Entry)
    ensures
        final(out)@ == old(out)@ + link_line(e@),
{
    push_indent(out, e.namespace.len());
    proof {
        reveal_strlit("  ");
    }
    push_str(out, "  ");
    let ghost lead = out@;
    proof {
        assert(lead == old(out)@ + indent((e@.namespace.len() + 1) as nat));
    }
    push_str(out, "- [");
    push_str(out, e.hrid.as_str());
    if chars_of(e.title.as_str()).len() != 0 {
        push_str(out, ": ");
        push_str(out, e.title.as_str());
    }
    push_str(out, "](");
    push_str(out, e.link.as_str());
    push_str(out, ")\n");
    proof {
        assert(out@ =~= old(out)@ + link_line(e@));
    }
}

fn push_entry_lines(out: &mut String, prev: Option<&Entry>, e: &Entry)
    ensures
        final(out)@ == old(out)@ + entry_lines(prev_view(prev), e@),
{
    let ns = &e.namespace;
    let common = match prev {
        Some(p) => {
            proof {
                lemma_common_count_bound(p@.namespace, e@.namespace);
            }
            common_len(&p.namespace, ns)
        },
        None => {
            proof {
                assert(common_count(Seq::<Seq<char>>::empty(), ns@.map_values(|s: String| s@)) == 0);
            }
            0
        },
    };
    let mut d: usize = common;
    while d < ns.len()
        invariant
            common <= d <= ns@.len(),
            e@.namespace == ns@.map_values(|s: String| s@),
            out@ + namespace_lines(e@.namespace, d as nat) == old(out)@ + namespace_lines(
                e@.namespace,
                common as nat,
            ),
        decreases ns@.len() - d,
    {
        push_chapter(out, d, ns[d].as_str());
        proof {
            assert(ns@[d as int]@ == e@.namespace[d as int]);
        }
        d = d + 1;
    }
    proof {
        assert(namespace_lines(e@.namespace, d as nat) =~= Seq::<char>::empty());
    }
    let ghost after_ns = out@;
    let same_kind = match prev {
        Some(p) => common == p.namespace.len() && common == ns.len() && strings_equal(&p.kind, &e.kind),
        None => false,
    };
    if !same_kind {
        push_chapter(out, ns.len(), e.kind.as_str());
    }
    let ghost after_kind = out@;
    push_link_line(out, e);
    proof {
        assert(out@ == after_kind + link_line(e@));
        assert(out@ =~= old(out)@ + entry_lines(prev_view(prev), e@));
    }
}

/// Renders entries as an mdBook summary fragment: draft chapters group the
/// entries by namespace segment and kind, and each entry links to its file.
pub fn render_entries(entries: &[Entry]) -> (r: String)
    ensures
        r@ == rendered(entries@.map_values(|e: Entry| e@), entries@.len() as int),
{
    let ghost es = entries@.map_values(|e: Entry| e@);
    let mut out = String::new();
    let mut i: usize = 0;
    while i < entries.len()
        invariant
            i <= entries@.len(),
            es == entries@.map_values(|e: Entry| e@),
            out@ == rendered(es, i as int),
        decreases entries@.len() - i,
    {
        let prev = if i > 0 {
            Some(&entries[i - 1])
        } else {
            None
        };
        push_entry_lines(&mut out, prev, &entries[i]);
        proof {
            assert(es[i as int] == entries@[i as int]@);
            if i > 0 {
                assert(es[i - 1] == entries@[i - 1]@);
            }
        }
        i = i + 1;
    }
    out
}


/// The summary entry of the requirement with HRID `h`: its namespace, kind,
/// id, displayed HRID, trimmed title, and the link from `summary_dir` to its
/// file (files shown below `root`).
pub open spec fn entry_for(dir: &crate::directory::Directory, root: Seq<char>, summary_dir: Seq<char>, h: crate::hrid::SpecHrid) -> EntryView {
    EntryView {
        namespace: h.namespace,
        kind: h.kind,
        id: h.id,
        hrid: crate::hrid::spec_display(h, dir.config_view().digits),
        title: crate::text::trim(crate::review::title_or_empty(dir.tree_view(), h)),
        link: link_between(
            normalized(split(summary_dir, '/')),
            normalized(split(crate::rows::display_path(root, crate::review::file_for(dir, h)), '/')),
        ),
    }
}

/// One entry per requirement, ordered by namespace, then kind, then id (the
/// order of their HRIDs); `root` and `summary_dir` are absolute paths.
pub fn collect_summary_entries(dir: &crate::directory::Directory, root: &str, summary_dir: &str) -> (r: Vec<Entry>)
    requires
        dir.wf(),
    ensures
        exists|hs: Seq<crate::hrid::Hrid>| {
            &&& crate::sorting::strictly_sorted(hs)
            &&& #[trigger] crate::sorting::hrid_values(hs) == Set::new(|h: crate::hrid::SpecHrid| dir.tree_view().has_hrid(h))
            &&& r@.len() == hs.len()
            &&& forall|i: int| 0 <= i < r@.len() ==> (#[trigger] r@[i])@ == entry_for(dir, root@, summary_dir@, hs[i]@)
        },
{
    proof {
        dir.lemma_tree_wf();
    }
    let views = dir.tree().iter();
    let ghost t = dir.tree_view();
    let ghost ord = t.order();
    let mut all: Vec<crate::hrid::Hrid> = Vec::new();
    let mut i: usize = 0;
    while i < views.len()
        invariant
            dir.wf(),
            t == dir.tree_view(),
            ord == t.order(),
            views@.len() == ord.len(),
            ord.to_set() == t.reqs().dom(),
            forall|j: int| 0 <= j < views@.len() ==> t.describes(ord[j], #[trigger] views@[j]),
            i <= views@.len(),
            all@.len() == i,
            forall|j: int| 0 <= j < i ==> #[trigger] all@[j]@ == t.reqs()[ord[j]].hrid,
        decreases views@.len() - i,
    {
        all.push(views[i].hrid.clone());
        proof {
            assert(t.describes(ord[i as int], views@[i as int]));
        }
        i = i + 1;
    }
    proof {
        assert forall|h: crate::hrid::SpecHrid| crate::sorting::hrid_values(all@).contains(h) == t.has_hrid(h) by {
            let av = all@.map_values(|x: crate::hrid::Hrid| x@);
            if av.to_set().contains(h) {
                let j = choose|j: int| 0 <= j < av.len() && av[j] == h;
                assert(all@[j]@ == t.reqs()[ord[j]].hrid);
                assert(ord.to_set().contains(ord[j]));
            }
            if t.has_hrid(h) {
                let u = choose|u: u128| t.reqs().contains_key(u) && t.reqs()[u].hrid == h;
                assert(ord.to_set().contains(u));
                let j = choose|j: int| 0 <= j < ord.len() && ord[j] == u;
                assert(av[j] == h);
            }
        }
    }
    let hs = crate::sorting::sort_hrids(all);
    let digits = dir.config().digits();
    let mut r: Vec<Entry> = Vec::new();
    let mut k: usize = 0;
    while k < hs.len()
        invariant
            dir.wf(),
            digits as nat == dir.config_view().digits,
            k <= hs@.len(),
            r@.len() == k,
            forall|j: int| 0 <= j < k ==> (#[trigger] r@[j])@ == entry_for(dir, root@, summary_dir@, hs@[j]@),
        decreases hs@.len() - k,
    {
        let h = &hs[k];
        let title = crate::review::title_or_empty_of(dir, h);
        let path = crate::review::link_path(dir, root, h);
        let link = relative_link(summary_dir, path.as_str());
        let mut namespace: Vec<String> = Vec::new();
        let parts = h.namespace();
        let mut q: usize = 0;
        while q < parts.len()
            invariant
                q <= parts@.len(),
                namespace@.len() == q,
                forall|j: int| 0 <= j < q ==> #[trigger] namespace@[j]@ == parts@[j]@,
            decreases parts@.len() - q,
        {
            namespace.push(string_of(parts[q]));
            q = q + 1;
        }
        let e = Entry {
            namespace,
            kind: string_of(h.kind()),
            id: h.id(),
            hrid: h.to_string_with_digits(digits),
            title: string_from_chars(crate::text::trimmed(chars_of(title.as_str()).as_slice()).as_slice()),
            link,
        };
        proof {
            assert(e@.namespace =~= hs@[k as int]@.namespace);
            assert(e@ == entry_for(dir, root@, summary_dir@, hs@[k as int]@));
        }
        r.push(e);
        k = k + 1;
    }
    r
}

} // verus!
