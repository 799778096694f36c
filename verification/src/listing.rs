//! The listing of requirements: output formats, views, columns, row
//! pagination, and the text transformations applied to cell values.

use vstd::prelude::*;

use crate::text::{chars_of, push_char, push_str, string_from_chars, string_of};
use crate::summary::{first_from, is_first_from, occurs_from};

verus! {

/// Supported output formats.
#[derive(Copy, Clone, Debug, PartialEq, Eq, Structural)]
pub enum OutputFormat {
    Table,
    Json,
    Csv,
}

impl Default for OutputFormat {
    fn default() -> (r: Self)
        ensures
            r == OutputFormat::Table,
    {
        OutputFormat::Table
    }
}

/// The name of an output format.
pub open spec fn format_name(f: OutputFormat) -> Seq<char> {
    match f {
        OutputFormat::Table => "table"@,
        OutputFormat::Json => "json"@,
        OutputFormat::Csv => "csv"@,
    }
}

impl OutputFormat {
    /// The format's name as given on the command line.
    pub fn to_string(&self) -> (r: String)
        ensures
            r@ == format_name(*self),
    {
        match self {
            OutputFormat::Table => string_of("table"),
            OutputFormat::Json => string_of("json"),
            OutputFormat::Csv => string_of("csv"),
        }
    }
}

/// Sortable fields.
#[derive(Copy, Clone, Debug, PartialEq, Eq, Structural)]
pub enum SortField {
    Hrid,
    Kind,
    Title,
    Created,
}

impl Default for SortField {
    fn default() -> (r: Self)
        ensures
            r == SortField::Hrid,
    {
        SortField::Hrid
    }
}

/// The view applied to the listing results (which relatives are listed).
#[derive(Copy, Clone, Debug, PartialEq, Eq, Structural)]
pub enum ListingView {
    Summary,
    Parents,
    Children,
    Ancestors,
    Descendants,
    Tree,
    Context,
}

impl Default for ListingView {
    fn default() -> (r: Self)
        ensures
            r == ListingView::Summary,
    {
        ListingView::Summary
    }
}

/// The name of a view.
pub open spec fn view_name(v: ListingView) -> Seq<char> {
    match v {
        ListingView::Summary => "summary"@,
        ListingView::Parents => "parents"@,
        ListingView::Children => "children"@,
        ListingView::Ancestors => "ancestors"@,
        ListingView::Descendants => "descendants"@,
        ListingView::Tree => "tree"@,
        ListingView::Context => "context"@,
    }
}

impl ListingView {
    /// The view's name.
    pub fn name(self) -> (r: &'static str)
        ensures
            r@ == view_name(self),
    {
        match self {
            ListingView::Summary => "summary",
            ListingView::Parents => "parents",
            ListingView::Children => "children",
            ListingView::Ancestors => "ancestors",
            ListingView::Descendants => "descendants",
            ListingView::Tree => "tree",
            ListingView::Context => "context",
        }
    }
}

/// The available table columns.
#[derive(Copy, Clone, Debug, PartialEq, Eq, Structural, Hash)]
pub enum ListColumn {
    Hrid,
    Title,
    Kind,
    Namespace,
    Parents,
    Children,
    Tags,
    Path,
    Created,
}

impl Default for ListColumn {
    fn default() -> (r: Self)
        ensures
            r == ListColumn::Hrid,
    {
        ListColumn::Hrid
    }
}

/// The header of a column.
pub open spec fn column_header(c: ListColumn) -> Seq<char> {
    match c {
        ListColumn::Hrid => "HRID"@,
        ListColumn::Title => "Title"@,
        ListColumn::Kind => "Kind"@,
        ListColumn::Namespace => "Namespace"@,
        ListColumn::Parents => "Parents"@,
        ListColumn::Children => "Children"@,
        ListColumn::Tags => "Tags"@,
        ListColumn::Path => "Path"@,
        ListColumn::Created => "Created"@,
    }
}

impl ListColumn {
    /// The column's header.
    pub fn header(self) -> (r: &'static str)
        ensures
            r@ == column_header(self),
    {
        match self {
            ListColumn::Hrid => "HRID",
            ListColumn::Title => "Title",
            ListColumn::Kind => "Kind",
            ListColumn::Namespace => "Namespace",
            ListColumn::Parents => "Parents",
            ListColumn::Children => "Children",
            ListColumn::Tags => "Tags",
            ListColumn::Path => "Path",
            ListColumn::Created => "Created",
        }
    }
}

// ---------------------------------------------------------------------------
// Rows and pagination
// ---------------------------------------------------------------------------

/// The relationship of a row to the requirements asked for.
#[derive(Copy, Clone, Debug, PartialEq, Eq, Structural, Hash)]
pub enum Direction {
    /// The row is one of the targets.
    Neutral,
    /// The row lies above the targets (an ancestor).
    Up,
    /// The row lies below the targets (a descendant).
    Down,
}

/// One result row: an entry index and its relationship to the targets.
#[derive(Copy, Clone, Debug, PartialEq, Eq, Structural)]
pub struct Row {
    pub index: usize,
    pub direction: Direction,
    pub depth: usize,
}

/// The traversal depth asked for: the default when none was given, and
/// unbounded for zero.
pub fn resolve_depth(depth: Option<usize>, default: usize) -> (r: usize)
    ensures
        r == match depth {
            None => default,
            Some(v) => if v == 0 {
                usize::MAX
            } else {
                v
            },
        },
{
    match depth {
        None => default,
        Some(v) => if v == 0 {
            usize::MAX
        } else {
            v
        },
    }
}

/// `a - b`, or zero when `b` is larger.
pub open spec fn monus(a: int, b: int) -> int {
    if a > b {
        a - b
    } else {
        0
    }
}

/// The number of rows the limit cuts off, not counting the rows the offset
/// skips.
pub fn truncation_count(total_rows: usize, offset: Option<usize>, limit: Option<usize>) -> (r: usize)
    ensures
        r == match limit {
            None => 0,
            Some(l) => monus(
                monus(
                    total_rows as int,
                    match offset {
                        Some(o) => o as int,
                        None => 0,
                    },
                ),
                l as int,
            ),
        },
{
    let off = match offset {
        Some(o) => o,
        None => 0,
    };
    let remaining = total_rows.saturating_sub(off);
    match limit {
        None => 0,
        Some(l) => remaining.saturating_sub(l),
    }
}

/// The rows left after skipping `offset` rows and keeping at most `limit`.
pub open spec fn paged<T>(rows: Seq<T>, offset: Option<usize>, limit: Option<usize>) -> Seq<T> {
    let after = match offset {
        Some(o) => if o < rows.len() {
            rows.skip(o as int)
        } else {
            Seq::empty()
        },
        None => rows,
    };
    match limit {
        Some(m) => if m < after.len() {
            after.take(m as int)
        } else {
            after
        },
        None => after,
    }
}

/// Skips `offset` rows and keeps at most `limit` of the rest.
pub fn apply_offset_limit(rows: Vec<Row>, offset: Option<usize>, limit: Option<usize>) -> (r: Vec<Row>)
    ensures
        r@ == paged(rows@, offset, limit),
{
    let mut rows = rows;
    let ghost orig = rows@;
    match offset {
        Some(off) => {
            if off < rows.len() {
                let mut kept: Vec<Row> = Vec::new();
                let mut i: usize = off;
                while i < rows.len()
                    invariant
                        off <= i <= rows@.len(),
                        kept@ == rows@.subrange(off as int, i as int),
                    decreases rows@.len() - i,
                {
                    kept.push(rows[i]);
                    proof {
                        assert(kept@ =~= rows@.subrange(off as int, i + 1));
                    }
                    i = i + 1;
                }
                proof {
                    assert(rows@.subrange(off as int, rows@.len() as int) =~= rows@.skip(off as int));
                }
                rows = kept;
            } else {
                rows = Vec::new();
                proof {
                    assert(rows@ =~= Seq::<Row>::empty());
                }
            }
        },
        None => {},
    }
    match limit {
        Some(max) => {
            rows.truncate(max);
            proof {
                if max >= rows@.len() {
                    assert(rows@ =~= rows@);
                }
            }
        },
        None => {},
    }
    rows
}

// ---------------------------------------------------------------------------
// Cell values
// ---------------------------------------------------------------------------

/// The arrow that marks a direction.
pub open spec fn arrow(d: Direction) -> Seq<char> {
    match d {
        Direction::Up => "↑"@,
        Direction::Down => "↓"@,
        Direction::Neutral => Seq::empty(),
    }
}

/// `s` repeated `n` times.
pub open spec fn repeated(s: Seq<char>, n: nat) -> Seq<char>
    decreases n,
{
    if n == 0 {
        Seq::empty()
    } else {
        repeated(s, (n - 1) as nat) + s
    }
}

/// A value marked with one arrow per level of depth (at least one) when the
/// row lies above or below the targets.
pub open spec fn prefixed(value: Seq<char>, d: Direction, depth: nat) -> Seq<char> {
    if d == Direction::Neutral {
        value
    } else {
        repeated(arrow(d), if depth >= 1 { depth } else { 1 }) + " "@ + value
    }
}

/// Marks a value with its direction and depth.
pub fn prefix_value(value: String, direction: Direction, depth: usize) -> (r: String)
    ensures
        r@ == prefixed(value@, direction, depth as nat),
{
    if direction == Direction::Neutral {
        return value;
    }
    let a = match direction {
        Direction::Up => "↑",
        Direction::Down => "↓",
        Direction::Neutral => "",
    };
    let n = if depth >= 1 {
        depth
    } else {
        1
    };
    let mut r = String::new();
    let mut k: usize = 0;
    while k < n
        invariant
            k <= n,
            a@ == arrow(direction),
            r@ == repeated(arrow(direction), k as nat),
        decreases n - k,
    {
        push_str(&mut r, a);
        k = k + 1;
    }
    push_str(&mut r, " ");
    push_str(&mut r, value.as_str());
    proof {
        assert(r@ =~= prefixed(value@, direction, depth as nat));
    }
    r
}

/// Quote characters doubled.
pub open spec fn double_quotes(s: Seq<char>) -> Seq<char>
    decreases s.len(),
{
    if s.len() == 0 {
        Seq::empty()
    } else if s.last() == '"' {
        double_quotes(s.drop_last()) + "\"\""@
    } else {
        double_quotes(s.drop_last()).push(s.last())
    }
}

/// A value as a CSV field: quoted, with quotes doubled, when it holds a
/// comma, a quote or a line break.
pub open spec fn csv_field(s: Seq<char>) -> Seq<char> {
    if s.contains(',') || s.contains('"') || s.contains('\n') || s.contains('\r') {
        "\""@ + double_quotes(s) + "\""@
    } else {
        s
    }
}

/// Escapes a value for a CSV field.
pub fn csv_escape(value: &str) -> (r: String)
    ensures
        r@ == csv_field(value@),
{
    let v = chars_of(value);
    let mut special = false;
    let mut i: usize = 0;
    while i < v.len()
        invariant
            i <= v@.len(),
            special == exists|j: int| 0 <= j < i && (#[trigger] v@[j] == ',' || v@[j] == '"' || v@[j] == '\n'
                || v@[j] == '\r'),
        decreases v@.len() - i,
    {
        let c = v[i];
        if c == ',' || c == '"' || c == '\n' || c == '\r' {
            special = true;
        }
        proof {
            if special {
                if c == ',' || c == '"' || c == '\n' || c == '\r' {
                    assert(v@[i as int] == c);
                }
            }
        }
        i = i + 1;
    }
    proof {
        if special {
            let j = choose|j: int| 0 <= j < v@.len() && (#[trigger] v@[j] == ',' || v@[j] == '"' || v@[j] == '\n'
                || v@[j] == '\r');
            assert(value@.contains(v@[j]));
        } else {
            assert(!value@.contains(','));
            assert(!value@.contains('"'));
            assert(!value@.contains('\n'));
            assert(!value@.contains('\r'));
        }
    }
    if !special {
        return string_from_chars(v.as_slice());
    }
    let mut r = string_of("\"");
    let ghost open_q = r@;
    let mut k: usize = 0;
    while k < v.len()
        invariant
            k <= v@.len(),
            open_q == "\""@,
            r@ == open_q + double_quotes(v@.take(k as int)),
        decreases v@.len() - k,
    {
        proof {
            assert(v@.take(k + 1).drop_last() =~= v@.take(k as int));
            assert(v@.take(k + 1).last() == v@[k as int]);
        }
        if v[k] == '"' {
            push_str(&mut r, "\"\"");
        } else {
            push_char(&mut r, v[k]);
        }
        proof {
            reveal_strlit("\"\"");
            assert(r@ =~= open_q + double_quotes(v@.take(k + 1)));
        }
        k = k + 1;
    }
    push_str(&mut r, "\"");
    proof {
        reveal_strlit("\"");
        assert(v@.take(v@.len() as int) =~= v@);
    }
    r
}

/// The text left after ANSI escape sequences (from `ESC` up to and
/// including the next `m`) are removed, and whether an escape is still open.
pub open spec fn ansi_scan(s: Seq<char>) -> (Seq<char>, bool)
    decreases s.len(),
{
    if s.len() == 0 {
        (Seq::empty(), false)
    } else {
        let (out, in_escape) = ansi_scan(s.drop_last());
        let c = s.last();
        if c == '\x1b' {
            (out, true)
        } else if in_escape {
            (out, c != 'm')
        } else {
            (out.push(c), false)
        }
    }
}

/// Removes ANSI escape sequences.
pub fn strip_ansi(text: &str) -> (r: String)
    ensures
        r@ == ansi_scan(text@).0,
{
    let v = chars_of(text);
    let mut out = String::new();
    let mut in_escape = false;
    let mut i: usize = 0;
    while i < v.len()
        invariant
            i <= v@.len(),
            (out@, in_escape) == ansi_scan(v@.take(i as int)),
        decreases v@.len() - i,
    {
        let ch = v[i];
        proof {
            assert(v@.take(i + 1).drop_last() =~= v@.take(i as int));
            assert(v@.take(i + 1).last() == ch);
        }
        if ch == '\x1b' {
            in_escape = true;
        } else if in_escape {
            if ch == 'm' {
                in_escape = false;
            }
        } else {
            push_char(&mut out, ch);
        }
        i = i + 1;
    }
    proof {
        assert(v@.take(v@.len() as int) =~= v@);
    }
    out
}

/// ASCII letters in lower case; other characters unchanged.
pub open spec fn ascii_lower(s: Seq<char>) -> Seq<char> {
    s.map_values(|c: char| if 'A' <= c <= 'Z' { ((c as int) + 32) as char } else { c })
}

pub(crate) fn ascii_lower_chars(v: &[char]) -> (r: Vec<char>)
    ensures
        r@ == ascii_lower(v@),
{
    let mut r: Vec<char> = Vec::new();
    let mut i: usize = 0;
    while i < v.len()
        invariant
            i <= v@.len(),
            r@ == ascii_lower(v@.take(i as int)),
        decreases v@.len() - i,
    {
        let c = v[i];
        let l = if 'A' <= c && c <= 'Z' {
            ((c as u8) + 32) as char
        } else {
            c
        };
        r.push(l);
        proof {
            assert(r@ =~= ascii_lower(v@.take(i + 1)));
        }
        i = i + 1;
    }
    proof {
        assert(v@.take(v@.len() as int) =~= v@);
    }
    r
}

/// The text with the first case-insensitive (ASCII) match of `search`
/// marked: underlined when the terminal shows colour, between `<<` and `>>`
/// otherwise; the text unchanged when there is no match.
pub open spec fn highlighted(text: Seq<char>, search: Seq<char>, color: bool) -> Seq<char> {
    let lt = ascii_lower(text);
    let ls = ascii_lower(search);
    if !occurs_from(lt, ls, 0) {
        text
    } else {
        let pos = first_from(lt, ls, 0);
        let before = text.take(pos);
        let matched = text.subrange(pos, pos + search.len());
        let after = text.skip(pos + search.len());
        if color {
            before + "\x1b[4m"@ + matched + "\x1b[24m"@ + after
        } else {
            before + "<<"@ + matched + ">>"@ + after
        }
    }
}

/// Marks the first case-insensitive match of `search` in `text`; `color`
/// says whether the terminal shows colour.
pub fn highlight_match(text: &str, search: &str, color: bool) -> (r: String)
    ensures
        r@ == highlighted(text@, search@, color),
{
    let tv = chars_of(text);
    let sv = chars_of(search);
    let lt = ascii_lower_chars(tv.as_slice());
    let ls = ascii_lower_chars(sv.as_slice());
    let pos = match crate::summary::find_first(lt.as_slice(), ls.as_slice()) {
        None => {
            return string_from_chars(tv.as_slice());
        },
        Some(p) => p,
    };
    proof {
        crate::summary::lemma_first_from_unique(lt@, ls@, 0, pos as int);
    }
    let n = tv.len();
    proof {
        assert(n == tv@.len());
        assert(ls@.len() == sv@.len());
        assert(lt@.len() == tv@.len());
    }
    let end = pos + sv.len();
    let mut r = string_from_chars(crate::text::slice_range(tv.as_slice(), 0, pos).as_slice());
    if color {
        push_str(&mut r, "\x1b[4m");
    } else {
        push_str(&mut r, "<<");
    }
    push_str(&mut r, string_from_chars(crate::text::slice_range(tv.as_slice(), pos, end).as_slice()).as_str());
    if color {
        push_str(&mut r, "\x1b[24m");
    } else {
        push_str(&mut r, ">>");
    }
    push_str(&mut r, string_from_chars(crate::text::slice_range(tv.as_slice(), end, tv.len()).as_slice()).as_str());
    proof {
        assert(tv@.subrange(0, pos as int) =~= text@.take(pos as int));
        assert(tv@.subrange(end as int, tv@.len() as int) =~= text@.skip(end as int));
    }
    r
}

} // verus!
