//! The markdown form of a requirement: a YAML frontmatter block between
//! `---` lines, then a heading `# <HRID> <title>`, then the body.
//!
//! This module frames and unframes that text and parses the heading; the
//! frontmatter itself is YAML and is (de)serialised by the caller.

use vstd::prelude::*;

use crate::hrid::{
    ErrorView, Error as HridError, Hrid, SpecHrid, spec_display, spec_parse_hrid, valid_hrid, valid_segment,
    lemma_display_is_join, lemma_display_parse_roundtrip, lemma_zero_padded, display_parts, all_digits,
};
use crate::text::{
    char_is_whitespace, chars_of, is_blank, is_whitespace, join, join_range, lines, slice_range,
    push_str, split_lines, string_from_chars, string_of, trim, trimmed, trim_start, trim_end, strip_cr,
    find_char, lemma_find_char, lemma_find_char_at, lemma_trim_start_skip, lemma_trim_end_take,
};

verus! {

/// A line is blank when it holds nothing but whitespace.
pub open spec fn blank_line(l: Seq<char>) -> bool {
    trim(l).len() == 0
}

/// The lines without the blank lines at either end.
pub open spec fn drop_blank_ends(ls: Seq<Seq<char>>) -> Seq<Seq<char>>
    decreases ls.len(),
{
    if ls.len() == 0 {
        ls
    } else if blank_line(ls[0]) {
        drop_blank_ends(ls.drop_first())
    } else if blank_line(ls.last()) {
        drop_blank_ends(ls.drop_last())
    } else {
        ls
    }
}

/// `s` without its leading and trailing blank lines, the remaining lines
/// joined with `\n`; indentation inside is kept.
pub open spec fn trimmed_lines(s: Seq<char>) -> Seq<char> {
    join(drop_blank_ends(lines(s)), "\n"@)
}

proof fn lemma_drop_blank_all(ls: Seq<Seq<char>>)
    requires
        forall|i: int| 0 <= i < ls.len() ==> blank_line(#[trigger] ls[i]),
    ensures
        drop_blank_ends(ls).len() == 0,
    decreases ls.len(),
{
    if ls.len() > 0 {
        let t = ls.drop_first();
        assert(blank_line(ls[0]));
        assert forall|i: int| 0 <= i < t.len() implies blank_line(#[trigger] t[i]) by {
            assert(t[i] == ls[i + 1]);
        }
        lemma_drop_blank_all(t);
    }
}

proof fn lemma_drop_blank_range(ls: Seq<Seq<char>>, a: int, b: int)
    requires
        0 <= a <= b < ls.len(),
        !blank_line(ls[a]),
        !blank_line(ls[b]),
        forall|i: int| 0 <= i < a ==> blank_line(#[trigger] ls[i]),
        forall|i: int| b < i < ls.len() ==> blank_line(#[trigger] ls[i]),
    ensures
        drop_blank_ends(ls) == ls.subrange(a, b + 1),
    decreases ls.len(),
{
    if a > 0 {
        let t = ls.drop_first();
        assert(blank_line(ls[0]));
        assert forall|i: int| 0 <= i < a - 1 implies blank_line(#[trigger] t[i]) by {
            assert(t[i] == ls[i + 1]);
        }
        assert forall|i: int| b - 1 < i < t.len() implies blank_line(#[trigger] t[i]) by {
            assert(t[i] == ls[i + 1]);
        }
        lemma_drop_blank_range(t, a - 1, b - 1);
        assert(t.subrange(a - 1, b) =~= ls.subrange(a, b + 1));
    } else if b < ls.len() - 1 {
        let t = ls.drop_last();
        assert(blank_line(ls[ls.len() - 1]));
        assert forall|i: int| b < i < t.len() implies blank_line(#[trigger] t[i]) by {
            assert(t[i] == ls[i]);
        }
        lemma_drop_blank_range(t, a, b);
        assert(t.subrange(a, b + 1) =~= ls.subrange(a, b + 1));
    } else {
        assert(ls.subrange(a, b + 1) =~= ls);
    }
}

/// Removes the blank lines at the start and end of `s`, keeping the
/// indentation of the lines in between.
pub fn trim_empty_lines(s: &str) -> (r: String)
    ensures
        r@ == trimmed_lines(s@),
{
    let chars = chars_of(s);
    let ls = split_lines(chars.as_slice());
    let ghost lv = lines(s@);
    proof {
        assert(ls@.map_values(|l: Vec<char>| l@) =~= lv);
    }
    let mut a: usize = 0;
    while a < ls.len() && is_blank(ls[a].as_slice())
        invariant
            a <= ls@.len(),
            ls@.len() == lv.len(),
            forall|k: int| 0 <= k < ls@.len() ==> #[trigger] ls@[k]@ == lv[k],
            forall|i: int| 0 <= i < a ==> blank_line(#[trigger] lv[i]),
        decreases ls@.len() - a,
    {
        a = a + 1;
    }
    if a == ls.len() {
        proof {
            lemma_drop_blank_all(lv);
            assert(trimmed_lines(s@) =~= Seq::<char>::empty());
        }
        return String::new();
    }
    let mut b: usize = ls.len() - 1;
    while b > a && is_blank(ls[b].as_slice())
        invariant
            a <= b < ls@.len(),
            ls@.len() == lv.len(),
            forall|k: int| 0 <= k < ls@.len() ==> #[trigger] ls@[k]@ == lv[k],
            forall|i: int| b < i < lv.len() ==> blank_line(#[trigger] lv[i]),
        decreases b,
    {
        b = b - 1;
    }
    proof {
        assert(!blank_line(lv[a as int]));
        if b == a {
            assert(!blank_line(lv[b as int]));
        }
        lemma_drop_blank_range(lv, a as int, b as int);
        assert(ls@.subrange(a as int, b + 1).map_values(|l: Vec<char>| l@) =~= lv.subrange(a as int, b + 1));
    }
    let nl: Vec<char> = vec!['\n'];
    proof {
        reveal_strlit("\n");
        assert(nl@ =~= "\n"@);
    }
    let joined = join_range(&ls, a, b + 1, nl.as_slice());
    string_from_chars(joined.as_slice())
}


// ---------------------------------------------------------------------------
// The heading and body
// ---------------------------------------------------------------------------

/// A line whose trimmed text starts with `#`.
pub open spec fn is_heading(l: Seq<char>) -> bool {
    trim(l).len() > 0 && trim(l)[0] == '#'
}

/// Some line is a heading.
pub open spec fn has_heading(ls: Seq<Seq<char>>) -> bool {
    exists|i: int| 0 <= i < ls.len() && is_heading(#[trigger] ls[i])
}

/// The index of the first heading line.
pub open spec fn first_heading(ls: Seq<Seq<char>>) -> int {
    choose|i: int| 0 <= i < ls.len() && is_heading(ls[i]) && forall|j: int| 0 <= j < i ==> !is_heading(#[trigger] ls[j])
}

/// `k` is the number of `#` characters that `t` starts with.
pub open spec fn is_hash_run(t: Seq<char>, k: int) -> bool {
    &&& 0 <= k <= t.len()
    &&& forall|j: int| 0 <= j < k ==> #[trigger] t[j] == '#'
    &&& k == t.len() || t[k] != '#'
}

/// The number of `#` characters that `t` starts with.
pub open spec fn hash_run(t: Seq<char>) -> int {
    choose|k: int| is_hash_run(t, k)
}

/// `e` is the length of the first whitespace-free run of `t`.
pub open spec fn is_token_end(t: Seq<char>, e: int) -> bool {
    &&& 0 <= e <= t.len()
    &&& forall|j: int| 0 <= j < e ==> !is_whitespace(#[trigger] t[j])
    &&& e == t.len() || is_whitespace(t[e])
}

/// The length of the first whitespace-free run of `t`.
pub open spec fn token_end(t: Seq<char>) -> int {
    choose|e: int| is_token_end(t, e)
}

/// The text of a heading line after its `#` markers, trimmed.
pub open spec fn heading_text(l: Seq<char>) -> Seq<char> {
    let t = trim(l);
    trim(t.skip(hash_run(t)))
}

/// Why the markdown content of a requirement was refused.
#[derive(Debug)]
pub enum ContentError {
    /// No line is a heading.
    NoHeading,
    /// The first heading holds no HRID.
    NoHrid,
    /// The first token of the first heading is not an HRID.
    Hrid(HridError),
}

/// The mathematical content of a [`ContentError`].
pub enum ContentErrorView {
    NoHeading,
    NoHrid,
    Hrid(ErrorView),
}

impl View for ContentError {
    type V = ContentErrorView;

    open spec fn view(&self) -> ContentErrorView {
        match self {
            ContentError::NoHeading => ContentErrorView::NoHeading,
            ContentError::NoHrid => ContentErrorView::NoHrid,
            ContentError::Hrid(e) => ContentErrorView::Hrid(e@),
        }
    }
}

impl ContentError {
    /// The error message.
    pub fn to_string(&self) -> (r: String)
        ensures
            r@ == match self@ {
                ContentErrorView::NoHeading => "No heading found in content - HRID must be in the first heading"@,
                ContentErrorView::NoHrid => "No HRID found in title"@,
                ContentErrorView::Hrid(e) => crate::hrid::error_message(e),
            },
    {
        match self {
            ContentError::NoHeading => string_of("No heading found in content - HRID must be in the first heading"),
            ContentError::NoHrid => string_of("No HRID found in title"),
            ContentError::Hrid(e) => e.to_string(),
        }
    }
}

/// The HRID, title and body that markdown content holds: the HRID is the
/// first token of the first heading, the title the rest of that heading,
/// and the body the lines after it without blank lines at either end.
pub open spec fn content_parts(content: Seq<char>) -> Result<(SpecHrid, Seq<char>, Seq<char>), ContentErrorView> {
    let ls = lines(content);
    if !has_heading(ls) {
        Err(ContentErrorView::NoHeading)
    } else {
        let h = first_heading(ls);
        let a = heading_text(ls[h]);
        if a.len() == 0 {
            Err(ContentErrorView::NoHrid)
        } else {
            let e = token_end(a);
            match spec_parse_hrid(a.take(e)) {
                Err(err) => Err(ContentErrorView::Hrid(err)),
                Ok(hrid) => Ok((hrid, trim(a.skip(e)), trimmed_lines(join(ls.skip(h + 1), "\n"@)))),
            }
        }
    }
}

fn is_heading_line(l: &Vec<char>) -> (r: bool)
    ensures
        r == is_heading(l@),
{
    let t = trimmed(l.as_slice());
    t.len() > 0 && t[0] == '#'
}

/// Splits markdown content into the HRID and title of its first heading and
/// the body that follows.
pub fn parse_content(content: &str) -> (r: Result<(Hrid, String, String), ContentError>)
    ensures
        match r {
            Ok((h, t, b)) => content_parts(content@) == Ok::<_, ContentErrorView>((h@, t@, b@)),
            Err(e) => content_parts(content@) == Err::<(SpecHrid, Seq<char>, Seq<char>), _>(e@),
        },
{
    let chars = chars_of(content);
    let ls = split_lines(chars.as_slice());
    let ghost lv = lines(content@);
    let mut h: usize = 0;
    while h < ls.len() && !is_heading_line(&ls[h])
        invariant
            h <= ls@.len(),
            ls@.len() == lv.len(),
            forall|k: int| 0 <= k < ls@.len() ==> #[trigger] ls@[k]@ == lv[k],
            forall|j: int| 0 <= j < h ==> !is_heading(#[trigger] lv[j]),
        decreases ls@.len() - h,
    {
        h = h + 1;
    }
    if h == ls.len() {
        proof {
            if has_heading(lv) {
                let i = choose|i: int| 0 <= i < lv.len() && is_heading(#[trigger] lv[i]);
                assert(!is_heading(lv[i]));
            }
        }
        return Err(ContentError::NoHeading);
    }
    proof {
        assert(is_heading(lv[h as int]));
        assert(has_heading(lv));
        let f = first_heading(lv);
        if f < h {
            assert(!is_heading(lv[f]));
        }
        if f > h {
            assert(!is_heading(lv[h as int]));
        }
        assert(f == h);
    }
    let t = trimmed(ls[h].as_slice());
    let mut k: usize = 0;
    while k < t.len() && t[k] == '#'
        invariant
            k <= t@.len(),
            forall|j: int| 0 <= j < k ==> #[trigger] t@[j] == '#',
        decreases t@.len() - k,
    {
        k = k + 1;
    }
    proof {
        assert(is_hash_run(t@, k as int));
        let hk = hash_run(t@);
        assert(is_hash_run(t@, hk));
        if hk < k {
            assert(t@[hk] == '#');
        }
        if hk > k {
            assert(t@[k as int] == '#');
        }
        assert(hk == k);
    }
    let rest = slice_range(t.as_slice(), k, t.len());
    let after = trimmed(rest.as_slice());
    proof {
        assert(rest@ =~= t@.skip(k as int));
        assert(after@ == heading_text(lv[h as int]));
    }
    if after.len() == 0 {
        return Err(ContentError::NoHrid);
    }
    let mut e: usize = 0;
    while e < after.len() && !char_is_whitespace(after[e])
        invariant
            e <= after@.len(),
            forall|j: int| 0 <= j < e ==> !is_whitespace(#[trigger] after@[j]),
        decreases after@.len() - e,
    {
        e = e + 1;
    }
    proof {
        assert(is_token_end(after@, e as int));
        let te = token_end(after@);
        assert(is_token_end(after@, te));
        if te < e {
            assert(!is_whitespace(after@[te]));
        }
        if te > e {
            assert(!is_whitespace(after@[e as int]));
        }
        assert(te == e);
    }
    let token = string_from_chars(slice_range(after.as_slice(), 0, e).as_slice());
    proof {
        assert(token@ =~= after@.take(e as int));
    }
    let hrid = match Hrid::parse(token.as_str()) {
        Ok(hr) => hr,
        Err(err) => {
            return Err(ContentError::Hrid(err));
        },
    };
    let tail = slice_range(after.as_slice(), e, after.len());
    let title = string_from_chars(trimmed(tail.as_slice()).as_slice());
    proof {
        assert(tail@ =~= after@.skip(e as int));
    }
    let nl: Vec<char> = vec!['\n'];
    proof {
        reveal_strlit("\n");
        assert(nl@ =~= "\n"@);
    }
    let joined = join_range(&ls, h + 1, ls.len(), nl.as_slice());
    proof {
        assert(ls@.subrange(h + 1, ls@.len() as int).map_values(|l: Vec<char>| l@) =~= lv.skip(h + 1));
    }
    let joined_s = string_from_chars(joined.as_slice());
    let body = trim_empty_lines(joined_s.as_str());
    Ok((hrid, title, body))
}


// ---------------------------------------------------------------------------
// The document: frontmatter, then content
// ---------------------------------------------------------------------------

/// A line that closes or opens the frontmatter block.
pub open spec fn is_fence(l: Seq<char>) -> bool {
    trim(l) == "---"@
}

/// Some line at or after `from` is a fence.
pub open spec fn has_fence_from(ls: Seq<Seq<char>>, from: int) -> bool {
    exists|j: int| from <= j < ls.len() && is_fence(#[trigger] ls[j])
}

/// `j` is the first fence at or after `from`.
pub open spec fn is_first_fence(ls: Seq<Seq<char>>, from: int, j: int) -> bool {
    &&& from <= j < ls.len()
    &&& is_fence(ls[j])
    &&& forall|k: int| from <= k < j ==> !is_fence(#[trigger] ls[k])
}

/// Why a document was refused before its frontmatter was read.
#[derive(Debug, PartialEq, Eq)]
pub enum FrameError {
    /// The document has no lines.
    EmptyInput,
    /// The first line is not `---`.
    MissingFrontmatter,
}

impl FrameError {
    /// The error message.
    pub fn to_string(&self) -> (r: String)
        ensures
            r@ == match self {
                FrameError::EmptyInput => "Empty input"@,
                FrameError::MissingFrontmatter => "Expected frontmatter starting with '---'"@,
            },
    {
        match self {
            FrameError::EmptyInput => string_of("Empty input"),
            FrameError::MissingFrontmatter => string_of("Expected frontmatter starting with '---'"),
        }
    }
}

/// The frontmatter text and the markdown content of a document: the lines
/// between the opening `---` and the next `---` line (all remaining lines
/// when there is none), and the lines after that, each joined with `\n`.
pub open spec fn document_parts(doc: Seq<char>) -> Result<(Seq<char>, Seq<char>), FrameError> {
    let ls = lines(doc);
    if ls.len() == 0 {
        Err(FrameError::EmptyInput)
    } else if !is_fence(ls[0]) {
        Err(FrameError::MissingFrontmatter)
    } else if has_fence_from(ls, 1) {
        let j = choose|j: int| is_first_fence(ls, 1, j);
        Ok((join(ls.subrange(1, j), "\n"@), join(ls.skip(j + 1), "\n"@)))
    } else {
        Ok((join(ls.skip(1), "\n"@), Seq::empty()))
    }
}

fn is_fence_line(l: &Vec<char>) -> (r: bool)
    ensures
        r == is_fence(l@),
{
    let t = trimmed(l.as_slice());
    proof {
        reveal_strlit("---");
    }
    let r = t.len() == 3 && t[0] == '-' && t[1] == '-' && t[2] == '-';
    proof {
        if r {
            assert(t@ =~= "---"@);
        }
    }
    r
}

/// Splits a requirement document into its frontmatter text and its
/// markdown content.
pub fn split_document(doc: &str) -> (r: Result<(String, String), FrameError>)
    ensures
        match r {
            Ok((f, c)) => document_parts(doc@) == Ok::<_, FrameError>((f@, c@)),
            Err(e) => document_parts(doc@) == Err::<(Seq<char>, Seq<char>), _>(e),
        },
{
    let chars = chars_of(doc);
    let ls = split_lines(chars.as_slice());
    let ghost lv = lines(doc@);
    proof {
        assert(ls@.map_values(|l: Vec<char>| l@) =~= lv);
    }
    if ls.len() == 0 {
        return Err(FrameError::EmptyInput);
    }
    if !is_fence_line(&ls[0]) {
        return Err(FrameError::MissingFrontmatter);
    }
    let mut j: usize = 1;
    while j < ls.len() && !is_fence_line(&ls[j])
        invariant
            1 <= j <= ls@.len(),
            ls@.len() == lv.len(),
            forall|k: int| 0 <= k < ls@.len() ==> #[trigger] ls@[k]@ == lv[k],
            forall|k: int| 1 <= k < j ==> !is_fence(#[trigger] lv[k]),
        decreases ls@.len() - j,
    {
        j = j + 1;
    }
    let nl: Vec<char> = vec!['\n'];
    proof {
        reveal_strlit("\n");
        assert(nl@ =~= "\n"@);
    }
    if j == ls.len() {
        proof {
            if has_fence_from(lv, 1) {
                let k = choose|k: int| 1 <= k < lv.len() && is_fence(#[trigger] lv[k]);
                assert(!is_fence(lv[k]));
            }
            assert(ls@.subrange(1, ls@.len() as int).map_values(|l: Vec<char>| l@) =~= lv.skip(1));
        }
        let front = join_range(&ls, 1, ls.len(), nl.as_slice());
        return Ok((string_from_chars(front.as_slice()), String::new()));
    }
    proof {
        assert(is_first_fence(lv, 1, j as int));
        assert(has_fence_from(lv, 1));
        let c = choose|c: int| is_first_fence(lv, 1, c);
        assert(is_first_fence(lv, 1, c));
        if c < j {
            assert(!is_fence(lv[c]));
        }
        if c > j {
            assert(!is_fence(lv[j as int]));
        }
        assert(c == j);
        assert(ls@.subrange(1, j as int).map_values(|l: Vec<char>| l@) =~= lv.subrange(1, j as int));
        assert(ls@.subrange(j + 1, ls@.len() as int).map_values(|l: Vec<char>| l@) =~= lv.skip(j + 1));
    }
    let front = join_range(&ls, 1, j, nl.as_slice());
    let content = join_range(&ls, j + 1, ls.len(), nl.as_slice());
    Ok((string_from_chars(front.as_slice()), string_from_chars(content.as_slice())))
}

/// The text of a requirement document: the frontmatter (YAML text ending in
/// a newline) between `---` lines, the heading `# <HRID> <title>`, and the
/// body after a blank line when there is one.
pub open spec fn document_text(frontmatter: Seq<char>, hrid: SpecHrid, digits: nat, title: Seq<char>, body: Seq<char>) -> Seq<char> {
    let head = "---\n"@ + frontmatter + "---\n"@ + "# "@ + spec_display(hrid, digits) + " "@ + title;
    if body.len() == 0 {
        head + "\n"@
    } else {
        head + "\n\n"@ + body + "\n"@
    }
}

/// Renders a requirement document from its frontmatter text, HRID, title and
/// body.
pub fn render_document(frontmatter: &str, hrid: &Hrid, digits: usize, title: &str, body: &str) -> (r: String)
    ensures
        r@ == document_text(frontmatter@, hrid@, digits as nat, title@, body@),
{
    proof {
        reveal_strlit("---\n");
        reveal_strlit("# ");
        reveal_strlit(" ");
        reveal_strlit("\n");
        reveal_strlit("\n\n");
    }
    let mut r = string_of("---\n");
    push_str(&mut r, frontmatter);
    push_str(&mut r, "---\n");
    push_str(&mut r, "# ");
    push_str(&mut r, hrid.to_string_with_digits(digits).as_str());
    push_str(&mut r, " ");
    push_str(&mut r, title);
    let ghost head = r@;
    proof {
        assert(head =~= "---\n"@ + frontmatter@ + "---\n"@ + "# "@ + spec_display(hrid@, digits as nat) + " "@ + title@);
    }
    let bchars = chars_of(body);
    if bchars.len() == 0 {
        push_str(&mut r, "\n");
    } else {
        push_str(&mut r, "\n\n");
        push_str(&mut r, body);
        push_str(&mut r, "\n");
        proof {
            assert(r@ =~= head + "\n\n"@ + body@ + "\n"@);
        }
    }
    r
}


// ---------------------------------------------------------------------------
// Reading back what was written
// ---------------------------------------------------------------------------

/// A line of text: no newline inside and no carriage return at its end.
pub open spec fn plain_line(l: Seq<char>) -> bool {
    &&& forall|k: int| 0 <= k < l.len() ==> #[trigger] l[k] != '\n'
    &&& strip_cr(l) == l
}

/// Lines, each followed by a newline (nothing for no lines), as YAML
/// writers end their output.
pub open spec fn newline_terminated(ls: Seq<Seq<char>>) -> Seq<char> {
    if ls.len() == 0 {
        Seq::empty()
    } else {
        join(ls, "\n"@) + "\n"@
    }
}

proof fn lemma_lines_append(a: Seq<char>, b: Seq<char>)
    requires
        a.len() > 0,
        a.last() == '\n',
    ensures
        lines(a + b) == lines(a) + lines(b),
    decreases a.len(),
{
    lemma_find_char(a, '\n');
    let i: int = match find_char(a, '\n') {
        Some(i) => i,
        None => {
            assert(a[a.len() - 1] == '\n');
            0
        },
    };
    assert(find_char(a, '\n') == Some(i));
    let ab = a + b;
    assert forall|j: int| 0 <= j < i implies ab[j] != '\n' by {
        assert(ab[j] == a[j]);
    }
    lemma_find_char_at(ab, '\n', i);
    assert(ab.take(i) =~= a.take(i));
    let rest = a.skip(i + 1);
    assert(ab.skip(i + 1) =~= rest + b);
    if rest.len() == 0 {
        assert(rest + b =~= b);
        assert(lines(rest) =~= Seq::<Seq<char>>::empty());
        assert(lines(a) =~= seq![strip_cr(a.take(i))]);
        assert(lines(ab) =~= lines(a) + lines(b));
    } else {
        assert(rest.last() == a.last());
        lemma_lines_append(rest, b);
        assert(lines(ab) =~= seq![strip_cr(a.take(i))] + (lines(rest) + lines(b)));
        assert(lines(ab) =~= lines(a) + lines(b));
    }
}

proof fn lemma_lines_single(x: Seq<char>)
    requires
        plain_line(x),
    ensures
        lines(x + "\n"@) == seq![x],
        x.len() > 0 ==> lines(x) == seq![x],
{
    reveal_strlit("\n");
    let s = x + "\n"@;
    let n = x.len() as int;
    assert(s[n] == '\n');
    assert forall|j: int| 0 <= j < n implies s[j] != '\n' by {
        assert(s[j] == x[j]);
    }
    lemma_find_char_at(s, '\n', n);
    assert(s.take(n) =~= x);
    assert(s.skip(n + 1) =~= Seq::<char>::empty());
    assert(lines(s.skip(n + 1)) =~= Seq::<Seq<char>>::empty());
    assert(lines(s) == seq![strip_cr(s.take(n))] + lines(s.skip(n + 1)));
    assert(lines(s) =~= seq![x]);
    lemma_find_char(x, '\n');
    if x.len() > 0 {
        if let Some(i) = find_char(x, '\n') {
            assert(x[i] == '\n');
        }
    }
}

proof fn lemma_join_append(a: Seq<Seq<char>>, b: Seq<Seq<char>>, sep: Seq<char>)
    requires
        a.len() > 0,
        b.len() > 0,
    ensures
        join(a + b, sep) == join(a, sep) + sep + join(b, sep),
    decreases b.len(),
{
    let ab = a + b;
    if b.len() == 1 {
        assert(ab.drop_last() =~= a);
        assert(ab.last() == b[0]);
    } else {
        assert(ab.drop_last() =~= a + b.drop_last());
        assert(ab.last() == b.last());
        lemma_join_append(a, b.drop_last(), sep);
        assert(join(ab, sep) =~= join(a, sep) + sep + (join(b.drop_last(), sep) + sep + b.last()));
    }
}

proof fn lemma_lines_newline_terminated(ls: Seq<Seq<char>>)
    requires
        ls.len() > 0,
        forall|i: int| 0 <= i < ls.len() ==> plain_line(#[trigger] ls[i]),
    ensures
        lines(join(ls, "\n"@) + "\n"@) == ls,
    decreases ls.len(),
{
    reveal_strlit("\n");
    if ls.len() == 1 {
        assert(plain_line(ls[0]));
        lemma_lines_single(ls[0]);
        assert(seq![ls[0]] =~= ls);
    } else {
        let dl = ls.drop_last();
        assert forall|i: int| 0 <= i < dl.len() implies plain_line(#[trigger] dl[i]) by {
            assert(dl[i] == ls[i]);
        }
        lemma_lines_newline_terminated(dl);
        let a = join(dl, "\n"@) + "\n"@;
        let l = ls.last();
        assert(plain_line(ls[ls.len() - 1]));
        assert(join(ls, "\n"@) + "\n"@ =~= a + (l + "\n"@));
        assert(a.last() == '\n');
        lemma_lines_append(a, l + "\n"@);
        lemma_lines_single(l);
        assert(dl + seq![l] =~= ls);
    }
}

proof fn lemma_lines_join(ls: Seq<Seq<char>>)
    requires
        ls.len() > 0,
        forall|i: int| 0 <= i < ls.len() ==> plain_line(#[trigger] ls[i]),
        ls.last().len() > 0,
    ensures
        lines(join(ls, "\n"@)) == ls,
{
    reveal_strlit("\n");
    let l = ls.last();
    assert(plain_line(ls[ls.len() - 1]));
    lemma_lines_single(l);
    if ls.len() == 1 {
        assert(seq![ls[0]] =~= ls);
    } else {
        let dl = ls.drop_last();
        assert forall|i: int| 0 <= i < dl.len() implies plain_line(#[trigger] dl[i]) by {
            assert(dl[i] == ls[i]);
        }
        lemma_lines_newline_terminated(dl);
        let a = join(dl, "\n"@) + "\n"@;
        assert(join(ls, "\n"@) =~= a + l);
        assert(a.last() == '\n');
        lemma_lines_append(a, l);
        assert(dl + seq![l] =~= ls);
    }
}

proof fn lemma_trim_start_len(s: Seq<char>)
    ensures
        trim_start(s).len() <= s.len(),
        s.len() > 0 && is_whitespace(s[0]) ==> trim_start(s).len() < s.len(),
        s.len() > 0 && !is_whitespace(s[0]) ==> trim_start(s) == s,
    decreases s.len(),
{
    if s.len() > 0 && is_whitespace(s[0]) {
        lemma_trim_start_len(s.drop_first());
    }
}

proof fn lemma_trim_end_len(s: Seq<char>)
    ensures
        trim_end(s).len() <= s.len(),
        s.len() > 0 && is_whitespace(s.last()) ==> trim_end(s).len() < s.len(),
        s.len() > 0 && !is_whitespace(s.last()) ==> trim_end(s) == s,
    decreases s.len(),
{
    if s.len() > 0 && is_whitespace(s.last()) {
        lemma_trim_end_len(s.drop_last());
    }
}

/// A non-empty trimmed text starts and ends with a non-whitespace character.
proof fn lemma_trimmed_ends(t: Seq<char>)
    requires
        trim(t) == t,
        t.len() > 0,
    ensures
        !is_whitespace(t[0]),
        !is_whitespace(t.last()),
{
    lemma_trim_start_len(t);
    lemma_trim_end_len(trim_start(t));
    if !is_whitespace(t[0]) {
        lemma_trim_end_len(t);
    }
}

/// A text whose ends are not whitespace is its own trim.
proof fn lemma_trim_keeps(s: Seq<char>)
    requires
        s.len() > 0,
        !is_whitespace(s[0]),
        !is_whitespace(s.last()),
    ensures
        trim(s) == s,
{
    lemma_trim_start_len(s);
    lemma_trim_end_len(s);
}

/// No character of a rendered HRID is whitespace.
proof fn lemma_display_no_whitespace(h: SpecHrid, digits: nat)
    requires
        valid_hrid(h),
    ensures
        spec_display(h, digits).len() > 0,
        forall|k: int| 0 <= k < spec_display(h, digits).len() ==> !is_whitespace(#[trigger] spec_display(h, digits)[k]),
{
    reveal_strlit("-");
    lemma_display_is_join(h, digits);
    lemma_zero_padded(h.id, digits);
    let parts = display_parts(h, digits);
    let n = h.namespace.len();
    assert forall|i: int, k: int| 0 <= i < parts.len() && 0 <= k < parts[i].len() implies !is_whitespace(#[trigger] parts[i][k]) by {
        if i < n {
            assert(parts[i] == h.namespace[i]);
            assert(valid_segment(h.namespace[i]));
        } else if i == n {
            assert(parts[i] == h.kind);
        } else {
            assert(parts[i] == crate::hrid::zero_padded(h.id, digits));
            assert(all_digits(parts[i]));
        }
    }
    lemma_join_no_whitespace(parts, "-"@);
    let z = crate::hrid::zero_padded(h.id, digits);
    assert(spec_display(h, digits) == crate::hrid::spec_prefix(h) + "-"@ + z);
}

proof fn lemma_join_no_whitespace(parts: Seq<Seq<char>>, sep: Seq<char>)
    requires
        forall|i: int, k: int| 0 <= i < parts.len() && 0 <= k < parts[i].len() ==> !is_whitespace(#[trigger] parts[i][k]),
        forall|k: int| 0 <= k < sep.len() ==> !is_whitespace(#[trigger] sep[k]),
    ensures
        forall|k: int| 0 <= k < join(parts, sep).len() ==> !is_whitespace(#[trigger] join(parts, sep)[k]),
    decreases parts.len(),
{
    if parts.len() > 1 {
        let init = parts.drop_last();
        assert forall|i: int, k: int| 0 <= i < init.len() && 0 <= k < init[i].len() implies !is_whitespace(#[trigger] init[i][k]) by {
            assert(init[i] == parts[i]);
        }
        lemma_join_no_whitespace(init, sep);
        let j = join(init, sep);
        let l = parts.last();
        let all = j + sep + l;
        assert forall|k: int| 0 <= k < all.len() implies !is_whitespace(#[trigger] all[k]) by {
            if k < j.len() {
                assert(all[k] == j[k]);
            } else if k < j.len() + sep.len() {
                assert(all[k] == sep[k - j.len()]);
            } else {
                assert(all[k] == parts[parts.len() - 1][k - j.len() - sep.len()]);
            }
        }
    } else if parts.len() == 1 {
        assert forall|k: int| 0 <= k < parts[0].len() implies !is_whitespace(#[trigger] parts[0][k]) by {
            assert(!is_whitespace(parts[0][k]));
        }
    }
}

/// The heading `# <d> <t>` of a rendered HRID `d` and a trimmed title `t`
/// reads back as the HRID text `d` and the title `t`.
proof fn lemma_heading_reads_back(d: Seq<char>, t: Seq<char>)
    requires
        d.len() > 0,
        forall|k: int| 0 <= k < d.len() ==> !is_whitespace(#[trigger] d[k]),
        trim(t) == t,
    ensures
        ({
            let hl = "# "@ + d + " "@ + t;
            let a = heading_text(hl);
            &&& is_heading(hl)
            &&& a.len() > 0
            &&& token_end(a) == d.len()
            &&& a.take(d.len() as int) == d
            &&& trim(a.skip(d.len() as int)) == t
        }),
{
    reveal_strlit("# ");
    reveal_strlit(" ");
    let hl = "# "@ + d + " "@ + t;
    let rest: Seq<char> = if t.len() == 0 { Seq::empty() } else { " "@ + t };
    let tt = "# "@ + d + rest;
    // The trimmed heading line.
    lemma_trim_start_len(hl);
    assert(trim_start(hl) == hl);
    if t.len() == 0 {
        assert(hl.last() == ' ');
        lemma_trim_end_take(hl, hl.len() - 1);
        assert(hl.take(hl.len() - 1) =~= tt);
        assert(tt.last() == d.last());
        lemma_trim_end_len(tt);
    } else {
        lemma_trimmed_ends(t);
        assert(hl =~= tt);
        assert(tt.last() == t.last());
        lemma_trim_end_len(tt);
    }
    assert(trim(hl) == tt);
    assert(is_heading(hl));
    // One `#`.
    assert(is_hash_run(tt, 1));
    let k = hash_run(tt);
    assert(is_hash_run(tt, k));
    if k == 0 {
        assert(tt[0] == '#');
    }
    if k > 1 {
        assert(tt[1] == '#');
    }
    assert(k == 1);
    let a = d + rest;
    let after = tt.skip(1);
    assert(after =~= " "@ + a);
    lemma_trim_start_skip(after, 1);
    assert(after.skip(1) =~= a);
    lemma_trim_start_len(a);
    assert(trim_start(after) == a);
    if t.len() == 0 {
        assert(a =~= d);
        assert(a.last() == d.last());
    } else {
        assert(a.last() == t.last());
    }
    lemma_trim_end_len(a);
    assert(heading_text(hl) == a);
    // The first token is the rendered HRID.
    let dl = d.len() as int;
    assert forall|j: int| 0 <= j < dl implies !is_whitespace(#[trigger] a[j]) by {
        assert(a[j] == d[j]);
    }
    if t.len() > 0 {
        assert(a[dl] == ' ');
    }
    assert(is_token_end(a, dl));
    let e = token_end(a);
    assert(is_token_end(a, e));
    if e < dl {
        assert(a[e] == d[e]);
    }
    if e > dl {
        assert(!is_whitespace(a[dl]));
    }
    assert(e == dl);
    assert(a.take(dl) =~= d);
    assert(a.skip(dl) =~= rest);
    if t.len() == 0 {
        assert(trim(rest) =~= t);
    } else {
        lemma_trim_start_skip(rest, 1);
        assert(rest.skip(1) =~= t);
    }
}

/// Lines whose first and last are not blank are kept by `drop_blank_ends`.
proof fn lemma_drop_blank_keeps(ls: Seq<Seq<char>>)
    requires
        ls.len() > 0,
        !blank_line(ls[0]),
        !blank_line(ls.last()),
    ensures
        drop_blank_ends(ls) == ls,
{
}

/// The lines of a requirement's content: the heading, then a blank line and
/// the body lines when there are any.
pub open spec fn content_lines(heading: Seq<char>, body: Seq<Seq<char>>) -> Seq<Seq<char>> {
    if body.len() == 0 {
        seq![heading]
    } else {
        seq![heading, Seq::empty()] + body
    }
}

/// The content written for a heading and body reads back as the HRID,
/// title and body.
proof fn lemma_content_roundtrip(hrid: SpecHrid, digits: nat, title: Seq<char>, body: Seq<Seq<char>>)
    requires
        valid_hrid(hrid),
        plain_line(title),
        trim(title) == title,
        forall|i: int| 0 <= i < body.len() ==> plain_line(#[trigger] body[i]),
        body.len() > 0 ==> !blank_line(body[0]) && !blank_line(body.last()),
    ensures
        ({
            let hl = "# "@ + spec_display(hrid, digits) + " "@ + title;
            let cl = content_lines(hl, body);
            &&& forall|i: int| 0 <= i < cl.len() ==> plain_line(#[trigger] cl[i])
            &&& cl.last().len() > 0
            &&& content_parts(join(cl, "\n"@)) == Ok::<_, ContentErrorView>((hrid, title, join(body, "\n"@)))
        }),
{
    reveal_strlit("# ");
    reveal_strlit(" ");
    reveal_strlit("\n");
    let nl = "\n"@;
    let d = spec_display(hrid, digits);
    let b = join(body, nl);
    let hl = "# "@ + d + " "@ + title;
    lemma_display_no_whitespace(hrid, digits);
    lemma_display_parse_roundtrip(hrid, digits);
    lemma_heading_reads_back(d, title);
    assert forall|k: int| 0 <= k < hl.len() implies #[trigger] hl[k] != '\n' by {
        if 2 <= k < 2 + d.len() {
            assert(hl[k] == d[k - 2]);
            assert(!is_whitespace(d[k - 2]));
        } else if k >= 3 + d.len() {
            assert(hl[k] == title[k - 3 - d.len()]);
        }
    }
    if title.len() > 0 {
        lemma_trimmed_ends(title);
        assert(hl.last() == title.last());
    }
    assert(plain_line(hl));
    let cl = content_lines(hl, body);
    assert forall|i: int| 0 <= i < cl.len() implies plain_line(#[trigger] cl[i]) by {
        if i >= 2 {
            assert(cl[i] == body[i - 2]);
        }
    }
    if body.len() > 0 {
        assert(cl.last() == body.last());
        lemma_trim_start_len(body.last());
        lemma_trim_end_len(trim_start(body.last()));
    }
    let c = join(cl, nl);
    lemma_lines_join(cl);
    let cls = lines(c);
    assert(is_heading(cls[0]));
    assert(has_heading(cls));
    let h0 = first_heading(cls);
    if h0 > 0 {
        assert(!is_heading(cls[0]));
    }
    assert(h0 == 0);
    if body.len() == 0 {
        assert(cls.skip(1) =~= Seq::<Seq<char>>::empty());
        assert(join(cls.skip(1), nl) =~= Seq::<char>::empty());
        assert(lines(Seq::<char>::empty()) =~= Seq::<Seq<char>>::empty());
        assert(b =~= Seq::<char>::empty());
        assert(trimmed_lines(join(cls.skip(1), nl)) =~= b);
    } else {
        let rest = seq![Seq::<char>::empty()] + body;
        assert(cls.skip(1) =~= rest);
        lemma_join_append(seq![Seq::<char>::empty()], body, nl);
        assert(join(rest, nl) =~= nl + b);
        assert(plain_line(Seq::<char>::empty()));
        lemma_lines_single(Seq::<char>::empty());
        assert(Seq::<char>::empty() + nl =~= nl);
        lemma_lines_append(nl, b);
        lemma_lines_join(body);
        assert(lines(nl + b) =~= rest);
        assert(blank_line(rest[0])) by {
            assert(rest[0] =~= Seq::<char>::empty());
        }
        assert(rest.drop_first() =~= body);
        lemma_drop_blank_keeps(body);
        assert(drop_blank_ends(rest) == body);
        assert(trimmed_lines(join(cls.skip(1), nl)) == b);
    }
}

/// A document written as a `---` line, frontmatter lines, a `---` line and
/// content lines splits back into the frontmatter and the content.
proof fn lemma_frame_roundtrip(frontmatter: Seq<Seq<char>>, cl: Seq<Seq<char>>)
    requires
        forall|i: int| 0 <= i < frontmatter.len() ==> plain_line(#[trigger] frontmatter[i]) && !is_fence(frontmatter[i]),
        cl.len() > 0,
        forall|i: int| 0 <= i < cl.len() ==> plain_line(#[trigger] cl[i]),
    ensures
        document_parts("---\n"@ + newline_terminated(frontmatter) + "---\n"@ + (join(cl, "\n"@) + "\n"@))
            == Ok::<_, FrameError>((join(frontmatter, "\n"@), join(cl, "\n"@))),
{
    reveal_strlit("---\n");
    reveal_strlit("---");
    reveal_strlit("\n");
    let nl = "\n"@;
    let fm = newline_terminated(frontmatter);
    let tail = join(cl, nl) + nl;
    lemma_lines_newline_terminated(cl);
    let fence = seq!['-', '-', '-'];
    assert("---"@ =~= fence);
    assert("---\n"@ =~= fence + nl);
    assert(plain_line(fence));
    lemma_lines_single(fence);
    let doc = "---\n"@ + fm + "---\n"@ + tail;
    assert(doc =~= (fence + nl) + (fm + ((fence + nl) + tail)));
    lemma_lines_append(fence + nl, fm + ((fence + nl) + tail));
    lemma_lines_append(fence + nl, tail);
    if frontmatter.len() > 0 {
        lemma_lines_newline_terminated(frontmatter);
        lemma_lines_append(fm, (fence + nl) + tail);
    } else {
        assert(fm + ((fence + nl) + tail) =~= (fence + nl) + tail);
        assert(lines(fm) =~= frontmatter);
    }
    let ls = lines(doc);
    assert(ls =~= seq![fence] + frontmatter + seq![fence] + cl);
    let n = frontmatter.len() as int;
    lemma_trim_keeps(fence);
    assert(is_fence(ls[0]));
    assert forall|k: int| 1 <= k < n + 1 implies !is_fence(#[trigger] ls[k]) by {
        assert(ls[k] == frontmatter[k - 1]);
    }
    assert(ls[n + 1] == fence);
    assert(is_first_fence(ls, 1, n + 1));
    assert(has_fence_from(ls, 1));
    let j = choose|j: int| is_first_fence(ls, 1, j);
    assert(is_first_fence(ls, 1, j));
    if j < n + 1 {
        assert(!is_fence(ls[j]));
    }
    if j > n + 1 {
        assert(!is_fence(ls[n + 1]));
    }
    assert(j == n + 1);
    assert(ls.subrange(1, j) =~= frontmatter);
    assert(ls.skip(j + 1) =~= cl);
}

/// Reading a written requirement document gives back what was written:
/// the frontmatter lines, the HRID, the title and the body. This holds for
/// frontmatter without a `---` line, a title that is one trimmed line, and
/// a body without blank lines at either end.
#[verifier::spinoff_prover]
#[verifier::rlimit(40)]
pub proof fn lemma_document_roundtrip(
    frontmatter: Seq<Seq<char>>,
    hrid: SpecHrid,
    digits: nat,
    title: Seq<char>,
    body: Seq<Seq<char>>,
)
    requires
        valid_hrid(hrid),
        forall|i: int| 0 <= i < frontmatter.len() ==> plain_line(#[trigger] frontmatter[i]) && !is_fence(frontmatter[i]),
        plain_line(title),
        trim(title) == title,
        forall|i: int| 0 <= i < body.len() ==> plain_line(#[trigger] body[i]),
        body.len() > 0 ==> !blank_line(body[0]) && !blank_line(body.last()),
    ensures
        document_parts(document_text(newline_terminated(frontmatter), hrid, digits, title, join(body, "\n"@)))
            matches Ok((f, c)) && f == join(frontmatter, "\n"@)
            && content_parts(c) == Ok::<_, ContentErrorView>((hrid, title, join(body, "\n"@))),
{
    reveal_strlit("---\n");
    reveal_strlit("# ");
    reveal_strlit(" ");
    reveal_strlit("\n");
    reveal_strlit("\n\n");
    let nl = "\n"@;
    let d = spec_display(hrid, digits);
    let b = join(body, nl);
    let hl = "# "@ + d + " "@ + title;
    let cl = content_lines(hl, body);
    lemma_content_roundtrip(hrid, digits, title, body);
    lemma_frame_roundtrip(frontmatter, cl);
    let written = "# "@ + d + " "@ + title + (if b.len() == 0 { "\n"@ } else { "\n\n"@ + b + "\n"@ });
    if body.len() > 0 {
        assert(b.len() > 0) by {
            lemma_trim_start_len(body[0]);
            if body.len() >= 2 {
                lemma_join_first_nl(body);
            }
        }
        lemma_join_append(seq![hl, Seq::empty()], body, nl);
        assert(join(seq![hl, Seq::<char>::empty()], nl) == join(seq![hl], nl) + nl + Seq::<char>::empty()) by {
            assert(seq![hl, Seq::<char>::empty()].drop_last() =~= seq![hl]);
        }
        assert(written =~= join(cl, nl) + nl);
    } else {
        assert(b =~= Seq::<char>::empty());
        assert(written =~= join(cl, nl) + nl);
    }
    assert(document_text(newline_terminated(frontmatter), hrid, digits, title, b)
        =~= "---\n"@ + newline_terminated(frontmatter) + "---\n"@ + (join(cl, nl) + nl));
}

/// `join(parts, "\n")` starts with the first part.
proof fn lemma_join_first_nl(parts: Seq<Seq<char>>)
    requires
        parts.len() >= 2,
    ensures
        join(parts, "\n"@).len() >= parts[0].len(),
{
    lemma_join_append(seq![parts[0]], parts.drop_first(), "\n"@);
    assert(seq![parts[0]] + parts.drop_first() =~= parts);
}


/// Without carriage returns, every line of `s` is a plain line.
proof fn lemma_lines_plain(s: Seq<char>)
    requires
        forall|k: int| 0 <= k < s.len() ==> #[trigger] s[k] != '\r',
    ensures
        forall|i: int| 0 <= i < lines(s).len() ==> plain_line(#[trigger] lines(s)[i]),
    decreases s.len(),
{
    if s.len() > 0 {
        lemma_find_char(s, '\n');
        match find_char(s, '\n') {
            None => {
                assert(lines(s) == seq![s]);
            },
            Some(i) => {
                let rest = s.skip(i + 1);
                assert forall|k: int| 0 <= k < rest.len() implies #[trigger] rest[k] != '\r' by {
                    assert(rest[k] == s[k + i + 1]);
                }
                lemma_lines_plain(rest);
                let first = s.take(i);
                assert(strip_cr(first) == first) by {
                    if first.len() > 0 {
                        assert(first.last() == s[i - 1]);
                    }
                }
                assert forall|k: int| 0 <= k < first.len() implies #[trigger] first[k] != '\n' by {
                    assert(first[k] == s[k]);
                }
                assert forall|j: int| 0 <= j < lines(s).len() implies plain_line(#[trigger] lines(s)[j]) by {
                    if j > 0 {
                        assert(lines(s)[j] == lines(rest)[j - 1]);
                    } else {
                        assert(lines(s)[0] == strip_cr(first));
                    }
                }
            },
        }
    }
}

/// Trimming blank lines twice trims no more than once (for text without
/// carriage returns): what is left starts and ends with a non-blank line.
pub proof fn lemma_trimmed_lines_idempotent(s: Seq<char>)
    requires
        forall|k: int| 0 <= k < s.len() ==> #[trigger] s[k] != '\r',
    ensures
        trimmed_lines(trimmed_lines(s)) == trimmed_lines(s),
{
    reveal_strlit("\n");
    let ls = lines(s);
    lemma_lines_plain(s);
    if forall|i: int| 0 <= i < ls.len() ==> blank_line(#[trigger] ls[i]) {
        lemma_drop_blank_all(ls);
        assert(drop_blank_ends(ls) =~= Seq::<Seq<char>>::empty());
        assert(trimmed_lines(s) =~= Seq::<char>::empty());
        assert(lines(Seq::<char>::empty()) =~= Seq::<Seq<char>>::empty());
        assert(trimmed_lines(trimmed_lines(s)) =~= Seq::<char>::empty());
    } else {
        let a = lemma_first_nonblank(ls);
        let b = lemma_last_nonblank(ls);
        lemma_drop_blank_range(ls, a, b);
        let d = ls.subrange(a, b + 1);
        assert forall|i: int| 0 <= i < d.len() implies plain_line(#[trigger] d[i]) by {
            assert(d[i] == ls[i + a]);
        }
        assert(d.last() == ls[b]);
        assert(d.last().len() > 0) by {
            crate::text::lemma_trim_empty_iff(d.last());
        }
        lemma_lines_join(d);
        assert(d[0] == ls[a]);
        lemma_drop_blank_range(d, 0, d.len() - 1);
        assert(d.subrange(0, d.len() as int) =~= d);
    }
}

proof fn lemma_first_nonblank(ls: Seq<Seq<char>>) -> (a: int)
    requires
        exists|i: int| 0 <= i < ls.len() && !blank_line(#[trigger] ls[i]),
    ensures
        0 <= a < ls.len(),
        !blank_line(ls[a]),
        forall|j: int| 0 <= j < a ==> blank_line(#[trigger] ls[j]),
    decreases ls.len(),
{
    if !blank_line(ls[0]) {
        0
    } else {
        let t = ls.drop_first();
        let i = choose|i: int| 0 <= i < ls.len() && !blank_line(#[trigger] ls[i]);
        assert(i > 0);
        assert(t[i - 1] == ls[i]);
        let a = lemma_first_nonblank(t);
        assert forall|j: int| 0 <= j < a + 1 implies blank_line(#[trigger] ls[j]) by {
            if j > 0 {
                assert(ls[j] == t[j - 1]);
            }
        }
        assert(ls[a + 1] == t[a]);
        a + 1
    }
}

proof fn lemma_last_nonblank(ls: Seq<Seq<char>>) -> (b: int)
    requires
        exists|i: int| 0 <= i < ls.len() && !blank_line(#[trigger] ls[i]),
    ensures
        0 <= b < ls.len(),
        !blank_line(ls[b]),
        forall|j: int| b < j < ls.len() ==> blank_line(#[trigger] ls[j]),
    decreases ls.len(),
{
    if !blank_line(ls.last()) {
        ls.len() - 1
    } else {
        let t = ls.drop_last();
        let i = choose|i: int| 0 <= i < ls.len() && !blank_line(#[trigger] ls[i]);
        assert(i < ls.len() - 1);
        assert(t[i] == ls[i]);
        let b = lemma_last_nonblank(t);
        assert forall|j: int| b < j < ls.len() implies blank_line(#[trigger] ls[j]) by {
            if j < ls.len() - 1 {
                assert(ls[j] == t[j]);
            }
        }
        assert(ls[b] == t[b]);
        b
    }
}

} // verus!
