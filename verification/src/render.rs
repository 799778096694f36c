//! The text of a listing: cell values, and the lines of the table, CSV and
//! tree outputs.

use vstd::prelude::*;

use crate::config::texts;
use crate::hrid::spec_display;
use crate::listing::{
    column_header, csv_escape, csv_field, highlight_match, highlighted, prefix_value, prefixed, strip_ansi, ansi_scan,
    Direction, ListColumn, Row,
};
use crate::requirement::{tags_view, Timestamp};
use crate::rows::{title_text, ListEntry, LinkRef};
use crate::text::{copy_string, join, push_str, string_of};

verus! {

// ---------------------------------------------------------------------------
// Outside functions
// ---------------------------------------------------------------------------

/// The displayed width of a text in terminal columns
/// (`unicode_width::UnicodeWidthStr::width`).
pub uninterp spec fn text_width(s: Seq<char>) -> nat;

/// `UnicodeWidthStr::width`: the displayed width of the text in columns.
#[verifier::external_body]
fn unicode_width_of(s: &str) -> (r: usize)
    ensures
        r == text_width(s@),
{
    unicode_width::UnicodeWidthStr::width(s)
}

/// The RFC 3339 text of a UTC time given as seconds and nanoseconds since
/// the epoch (`chrono::DateTime::<Utc>::to_rfc3339`).
pub uninterp spec fn rfc3339(seconds: int, nanos: int) -> Seq<char>;

/// `chrono::DateTime::<Utc>::from_timestamp` then `to_rfc3339`: the time as
/// RFC 3339 text; a time chrono cannot represent gives the empty text.
#[verifier::external_body]
fn rfc3339_text(t: Timestamp) -> (r: String)
    ensures
        r@ == rfc3339(t.seconds as int, t.nanos as int),
{
    chrono::DateTime::<chrono::Utc>::from_timestamp(t.seconds, t.nanos).map(|d| d.to_rfc3339()).unwrap_or_default()
}

// ---------------------------------------------------------------------------
// Cell values
// ---------------------------------------------------------------------------

/// The displayed HRIDs of references.
pub open spec fn ref_displays(v: Seq<LinkRef>, digits: nat) -> Seq<Seq<char>> {
    v.map_values(|l: LinkRef| spec_display(l.hrid@, digits))
}

/// The value of a column for an entry.
pub open spec fn column_value(c: ListColumn, e: ListEntry, digits: nat) -> Seq<char> {
    match c {
        ListColumn::Hrid => spec_display(e.hrid@, digits),
        ListColumn::Title => title_text(e),
        ListColumn::Kind => e.hrid@.kind,
        ListColumn::Namespace => join(e.hrid@.namespace, "-"@),
        ListColumn::Parents => join(ref_displays(e.parents@, digits), ", "@),
        ListColumn::Children => join(ref_displays(e.children@, digits), ", "@),
        ListColumn::Tags => join(tags_view(e.tags@), ", "@),
        ListColumn::Path => e.path@,
        ListColumn::Created => rfc3339(e.created.seconds as int, e.created.nanos as int),
    }
}

/// Joins texts with a separator.
pub fn join_with(parts: &[String], sep: &str) -> (r: String)
    ensures
        r@ == join(texts(parts@), sep@),
{
    let mut r = String::new();
    let mut i: usize = 0;
    while i < parts.len()
        invariant
            i <= parts@.len(),
            r@ == join(texts(parts@).take(i as int), sep@),
        decreases parts@.len() - i,
    {
        let ghost prev = texts(parts@).take(i as int);
        let ghost next = texts(parts@).take(i + 1);
        proof {
            assert(next.drop_last() =~= prev);
            assert(next.last() == parts@[i as int]@);
        }
        if i > 0 {
            push_str(&mut r, sep);
        }
        push_str(&mut r, parts[i].as_str());
        proof {
            if i == 0 {
                assert(r@ =~= next[0]);
            }
        }
        i = i + 1;
    }
    proof {
        assert(texts(parts@).take(i as int) =~= texts(parts@));
    }
    r
}

fn ref_display_strings(v: &Vec<LinkRef>, digits: usize) -> (r: Vec<String>)
    ensures
        texts(r@) == ref_displays(v@, digits as nat),
{
    let mut r: Vec<String> = Vec::new();
    let mut i: usize = 0;
    while i < v.len()
        invariant
            i <= v@.len(),
            r@.len() == i,
            forall|j: int| 0 <= j < i ==> #[trigger] r@[j]@ == spec_display(v@[j].hrid@, digits as nat),
        decreases v@.len() - i,
    {
        r.push(v[i].hrid.to_string_with_digits(digits));
        i = i + 1;
    }
    assert(texts(r@) =~= ref_displays(v@, digits as nat));
    r
}

/// The value of a column for an entry.
pub fn column_value_of(column: ListColumn, entry: &ListEntry, digits: usize) -> (r: String)
    ensures
        r@ == column_value(column, *entry, digits as nat),
{
    match column {
        ListColumn::Hrid => entry.hrid.to_string_with_digits(digits),
        ListColumn::Title => match &entry.title {
            Some(t) => copy_string(t),
            None => String::new(),
        },
        ListColumn::Kind => string_of(entry.hrid.kind()),
        ListColumn::Namespace => {
            let ns = entry.hrid.namespace();
            let mut parts: Vec<String> = Vec::new();
            let mut i: usize = 0;
            while i < ns.len()
                invariant
                    i <= ns@.len(),
                    ns@.len() == entry.hrid@.namespace.len(),
                    forall|k: int| 0 <= k < ns@.len() ==> #[trigger] ns@[k]@ == entry.hrid@.namespace[k],
                    parts@.len() == i,
                    forall|k: int| 0 <= k < i ==> #[trigger] parts@[k]@ == entry.hrid@.namespace[k],
                decreases ns@.len() - i,
            {
                parts.push(string_of(ns[i]));
                i = i + 1;
            }
            proof {
                assert(texts(parts@) =~= entry.hrid@.namespace);
            }
            join_with(parts.as_slice(), "-")
        },
        ListColumn::Parents => join_with(ref_display_strings(&entry.parents, digits).as_slice(), ", "),
        ListColumn::Children => join_with(ref_display_strings(&entry.children, digits).as_slice(), ", "),
        ListColumn::Tags => {
            let r = join_with(entry.tags.as_slice(), ", ");
            proof {
                assert(texts(entry.tags@) =~= tags_view(entry.tags@));
            }
            r
        },
        ListColumn::Path => copy_string(&entry.path),
        ListColumn::Created => rfc3339_text(entry.created),
    }
}

// ---------------------------------------------------------------------------
// Table
// ---------------------------------------------------------------------------

/// The displayed width of a cell, ignoring terminal escape sequences.
pub open spec fn cell_width(s: Seq<char>) -> nat {
    text_width(ansi_scan(s).0)
}

/// The displayed width of a cell.
pub fn display_width(text: &str) -> (r: usize)
    ensures
        r == cell_width(text@),
{
    let stripped = strip_ansi(text);
    unicode_width_of(stripped.as_str())
}

/// The columns shown when none were asked for.
pub open spec fn table_columns(columns: Seq<ListColumn>, quiet: bool) -> Seq<ListColumn> {
    if columns.len() > 0 {
        columns
    } else if quiet {
        seq![ListColumn::Hrid]
    } else {
        seq![ListColumn::Hrid, ListColumn::Title, ListColumn::Kind, ListColumn::Parents, ListColumn::Children, ListColumn::Tags]
    }
}

/// The text of one table cell: the HRID marked with the row's direction
/// and depth, the title with the search text highlighted.
pub open spec fn table_cell(c: ListColumn, e: ListEntry, row: Row, digits: nat, search: Option<Seq<char>>, color: bool) -> Seq<char> {
    let v = column_value(c, e, digits);
    if c == ListColumn::Hrid {
        prefixed(v, row.direction, row.depth as nat)
    } else if c == ListColumn::Title && search is Some {
        highlighted(v, search->Some_0, color)
    } else {
        v
    }
}

/// `n` spaces.
pub open spec fn spaces(n: nat) -> Seq<char> {
    Seq::new(n, |_i: int| ' ')
}

/// `n` dashes.
pub open spec fn dashes(n: nat) -> Seq<char> {
    Seq::new(n, |_i: int| '-')
}

/// `a - b`, or zero when `b` is larger.
pub open spec fn gap(a: int, b: int) -> nat {
    if a > b {
        (a - b) as nat
    } else {
        0
    }
}

/// Cells each followed by the padding up to their width and two spaces;
/// `counted` says whether the padding goes by character count (as a format
/// width does) or by displayed width.
pub open spec fn padded_line(cells: Seq<Seq<char>>, widths: Seq<nat>, counted: bool) -> Seq<char>
    decreases cells.len(),
{
    if cells.len() == 0 {
        Seq::empty()
    } else {
        let k = cells.len() - 1;
        let used = if counted { cells[k].len() as int } else { cell_width(cells[k]) as int };
        padded_line(cells.drop_last(), widths, counted) + cells[k] + spaces(gap(widths[k] as int, used)) + "  "@
    }
}

/// The dashes under each header, each followed by two spaces.
pub open spec fn rule_line(widths: Seq<nat>) -> Seq<char>
    decreases widths.len(),
{
    if widths.len() == 0 {
        Seq::empty()
    } else {
        rule_line(widths.drop_last()) + dashes(widths.last()) + "  "@
    }
}

/// The widest displayed cell of a column, and its header.
pub open spec fn column_width(header: Seq<char>, data: Seq<Seq<Seq<char>>>, c: int) -> nat
    decreases data.len(),
{
    if data.len() == 0 {
        cell_width(header)
    } else {
        let prev = column_width(header, data.drop_last(), c);
        let w = cell_width(data.last()[c]);
        if w > prev {
            w
        } else {
            prev
        }
    }
}

/// The cells of the table: one line of cells per row.
pub open spec fn table_data(
    columns: Seq<ListColumn>,
    entries: Seq<ListEntry>,
    rows: Seq<Row>,
    digits: nat,
    search: Option<Seq<char>>,
    color: bool,
) -> Seq<Seq<Seq<char>>> {
    rows.map_values(
        |row: Row| columns.map_values(|c: ListColumn| table_cell(c, entries[row.index as int], row, digits, search, color)),
    )
}

/// The lines of the table output: with `quiet`, the cells of each row
/// joined by tabs; otherwise the headers, a rule and the rows, each column
/// padded to its widest cell.
pub open spec fn table_text(
    columns: Seq<ListColumn>,
    entries: Seq<ListEntry>,
    rows: Seq<Row>,
    digits: nat,
    search: Option<Seq<char>>,
    color: bool,
    quiet: bool,
) -> Seq<Seq<char>> {
    let cols = table_columns(columns, quiet);
    let data = table_data(cols, entries, rows, digits, search, color);
    if quiet {
        data.map_values(|cells: Seq<Seq<char>>| join(cells, "\t"@))
    } else {
        let headers = cols.map_values(|c: ListColumn| column_header(c));
        let widths = Seq::new(cols.len(), |i: int| column_width(headers[i], data, i));
        seq![padded_line(headers, widths, true), rule_line(widths)] + data.map_values(
            |cells: Seq<Seq<char>>| padded_line(cells, widths, false),
        )
    }
}

pub(crate) fn push_repeated(s: &mut String, c: char, n: usize)
    ensures
        final(s)@ == old(s)@ + Seq::new(n as nat, |_i: int| c),
{
    let ghost start = s@;
    let mut k: usize = 0;
    while k < n
        invariant
            k <= n,
            s@ == start + Seq::new(k as nat, |_i: int| c),
        decreases n - k,
    {
        crate::text::push_char(s, c);
        proof {
            assert(start + Seq::new((k + 1) as nat, |_i: int| c) =~= start + Seq::new(k as nat, |_i: int| c) + seq![c]);
        }
        k = k + 1;
    }
}

fn table_cell_of(
    column: ListColumn,
    entry: &ListEntry,
    row: Row,
    digits: usize,
    search: &Option<String>,
    color: bool,
) -> (r: String)
    ensures
        r@ == table_cell(column, *entry, row, digits as nat, crate::rows::opt_text(*search), color),
{
    let v = column_value_of(column, entry, digits);
    if column == ListColumn::Hrid {
        prefix_value(v, row.direction, row.depth)
    } else if column == ListColumn::Title {
        match search {
            Some(q) => highlight_match(v.as_str(), q.as_str(), color),
            None => v,
        }
    } else {
        v
    }
}

fn selected_columns(columns: &[ListColumn], quiet: bool) -> (r: Vec<ListColumn>)
    ensures
        r@ == table_columns(columns@, quiet),
{
    if columns.len() > 0 {
        let mut r: Vec<ListColumn> = Vec::new();
        let mut i: usize = 0;
        while i < columns.len()
            invariant
                i <= columns@.len(),
                r@ == columns@.take(i as int),
            decreases columns@.len() - i,
        {
            r.push(columns[i]);
            proof {
                assert(columns@.take(i + 1) =~= columns@.take(i as int).push(columns@[i as int]));
            }
            i = i + 1;
        }
        proof {
            assert(columns@.take(i as int) =~= columns@);
        }
        r
    } else if quiet {
        let r = vec![ListColumn::Hrid];
        assert(r@ =~= seq![ListColumn::Hrid]);
        r
    } else {
        let r = vec![ListColumn::Hrid, ListColumn::Title, ListColumn::Kind, ListColumn::Parents, ListColumn::Children, ListColumn::Tags];
        assert(r@ =~= seq![ListColumn::Hrid, ListColumn::Title, ListColumn::Kind, ListColumn::Parents, ListColumn::Children, ListColumn::Tags]);
        r
    }
}

/// The texts of a line of cells.
spec fn cells_text(v: Seq<String>) -> Seq<Seq<char>> {
    texts(v)
}

fn pad_cells(cells: &Vec<String>, widths: &Vec<usize>, counted: bool) -> (r: String)
    requires
        cells@.len() == widths@.len(),
    ensures
        r@ == padded_line(texts(cells@), widths@.map_values(|w: usize| w as nat), counted),
{
    let ghost ws = widths@.map_values(|w: usize| w as nat);
    let mut r = String::new();
    let mut i: usize = 0;
    while i < cells.len()
        invariant
            cells@.len() == widths@.len(),
            ws == widths@.map_values(|w: usize| w as nat),
            i <= cells@.len(),
            r@ == padded_line(texts(cells@).take(i as int), ws, counted),
        decreases cells@.len() - i,
    {
        let used: usize = if counted { crate::text::chars_of(cells[i].as_str()).len() } else { display_width(cells[i].as_str()) };
        let pad: usize = if widths[i] > used { widths[i] - used } else { 0 };
        push_str(&mut r, cells[i].as_str());
        push_repeated(&mut r, ' ', pad);
        push_str(&mut r, "  ");
        proof {
            let t = texts(cells@).take(i + 1);
            assert(t.drop_last() =~= texts(cells@).take(i as int));
            assert(t[i as int] == cells@[i as int]@);
            reveal_strlit("  ");
        }
        i = i + 1;
    }
    proof {
        assert(texts(cells@).take(i as int) =~= texts(cells@));
    }
    r
}

fn rule_of(widths: &Vec<usize>) -> (r: String)
    ensures
        r@ == rule_line(widths@.map_values(|w: usize| w as nat)),
{
    let ghost ws = widths@.map_values(|w: usize| w as nat);
    let mut r = String::new();
    let mut i: usize = 0;
    while i < widths.len()
        invariant
            ws == widths@.map_values(|w: usize| w as nat),
            i <= widths@.len(),
            r@ == rule_line(ws.take(i as int)),
        decreases widths@.len() - i,
    {
        push_repeated(&mut r, '-', widths[i]);
        push_str(&mut r, "  ");
        proof {
            assert(ws.take(i + 1).drop_last() =~= ws.take(i as int));
            reveal_strlit("  ");
        }
        i = i + 1;
    }
    proof {
        assert(ws.take(i as int) =~= ws);
    }
    r
}

/// The lines of the table output for the rows.
pub fn table_lines(
    rows: &[Row],
    entries: &[ListEntry],
    columns: &[ListColumn],
    quiet: bool,
    search: &Option<String>,
    color: bool,
    digits: usize,
) -> (r: Vec<String>)
    requires
        forall|t: int| 0 <= t < rows@.len() ==> (#[trigger] rows@[t]).index < entries@.len(),
    ensures
        texts(r@) == table_text(columns@, entries@, rows@, digits as nat, crate::rows::opt_text(*search), color, quiet),
{
    let cols = selected_columns(columns, quiet);
    let ghost sv = crate::rows::opt_text(*search);
    let ghost data = table_data(cols@, entries@, rows@, digits as nat, sv, color);
    let mut cells: Vec<Vec<String>> = Vec::new();
    let mut t: usize = 0;
    while t < rows.len()
        invariant
            forall|t: int| 0 <= t < rows@.len() ==> (#[trigger] rows@[t]).index < entries@.len(),
            sv == crate::rows::opt_text(*search),
            data == table_data(cols@, entries@, rows@, digits as nat, sv, color),
            t <= rows@.len(),
            cells@.len() == t,
            forall|u: int| 0 <= u < t ==> texts(#[trigger] cells@[u]@) == data[u],
        decreases rows@.len() - t,
    {
        let row = rows[t];
        let mut line: Vec<String> = Vec::new();
        let mut c: usize = 0;
        while c < cols.len()
            invariant
                row == rows@[t as int],
                row.index < entries@.len(),
                c <= cols@.len(),
                line@.len() == c,
                forall|k: int| 0 <= k < c ==> #[trigger] line@[k]@ == table_cell(cols@[k], entries@[row.index as int], row, digits as nat, sv, color),
                sv == crate::rows::opt_text(*search),
            decreases cols@.len() - c,
        {
            line.push(table_cell_of(cols[c], &entries[row.index], row, digits, search, color));
            c = c + 1;
        }
        proof {
            assert(texts(line@) =~= data[t as int]);
        }
        cells.push(line);
        t = t + 1;
    }
    let mut out: Vec<String> = Vec::new();
    if quiet {
        let mut u: usize = 0;
        while u < cells.len()
            invariant
                cells@.len() == rows@.len(),
                forall|u: int| 0 <= u < rows@.len() ==> texts(#[trigger] cells@[u]@) == data[u],
                u <= cells@.len(),
                out@.len() == u,
                forall|k: int| 0 <= k < u ==> #[trigger] out@[k]@ == join(data[k], "\t"@),
            decreases cells@.len() - u,
        {
            out.push(join_with(cells[u].as_slice(), "\t"));
            u = u + 1;
        }
        proof {
            assert(texts(out@) =~= data.map_values(|cells: Seq<Seq<char>>| join(cells, "\t"@)));
        }
        return out;
    }
    let ghost headers = cols@.map_values(|c: ListColumn| column_header(c));
    let mut header_cells: Vec<String> = Vec::new();
    let mut widths: Vec<usize> = Vec::new();
    let mut c: usize = 0;
    while c < cols.len()
        invariant
            headers == cols@.map_values(|c: ListColumn| column_header(c)),
            cells@.len() == rows@.len(),
            data.len() == rows@.len(),
            forall|u: int| 0 <= u < rows@.len() ==> texts(#[trigger] cells@[u]@) == data[u],
            forall|u: int| 0 <= u < rows@.len() ==> (#[trigger] data[u]).len() == cols@.len(),
            c <= cols@.len(),
            header_cells@.len() == c,
            widths@.len() == c,
            forall|k: int| 0 <= k < c ==> #[trigger] header_cells@[k]@ == headers[k],
            forall|k: int| 0 <= k < c ==> #[trigger] widths@[k] == column_width(headers[k], data, k),
        decreases cols@.len() - c,
    {
        let h = string_of(cols[c].header());
        let mut w = display_width(h.as_str());
        let mut u: usize = 0;
        while u < cells.len()
            invariant
                cells@.len() == rows@.len(),
                data.len() == rows@.len(),
                forall|u: int| 0 <= u < rows@.len() ==> texts(#[trigger] cells@[u]@) == data[u],
                forall|u: int| 0 <= u < rows@.len() ==> (#[trigger] data[u]).len() == cols@.len(),
                c < cols@.len(),
                h@ == headers[c as int],
                u <= cells@.len(),
                w == column_width(headers[c as int], data.take(u as int), c as int),
            decreases cells@.len() - u,
        {
            proof {
                assert(data.take(u + 1).drop_last() =~= data.take(u as int));
                assert(data.take(u + 1).last() == data[u as int]);
                assert(texts(cells@[u as int]@)[c as int] == cells@[u as int]@[c as int]@);
            }
            let cw = display_width(cells[u][c].as_str());
            if cw > w {
                w = cw;
            }
            u = u + 1;
        }
        proof {
            assert(data.take(u as int) =~= data);
        }
        header_cells.push(h);
        widths.push(w);
        c = c + 1;
    }
    let ghost ws = widths@.map_values(|w: usize| w as nat);
    proof {
        assert(texts(header_cells@) =~= headers);
        assert(ws =~= Seq::new(cols@.len(), |i: int| column_width(headers[i], data, i)));
    }
    out.push(pad_cells(&header_cells, &widths, true));
    out.push(rule_of(&widths));
    let mut u: usize = 0;
    while u < cells.len()
        invariant
            cells@.len() == rows@.len(),
            data.len() == rows@.len(),
            forall|u: int| 0 <= u < rows@.len() ==> texts(#[trigger] cells@[u]@) == data[u],
            forall|u: int| 0 <= u < rows@.len() ==> (#[trigger] data[u]).len() == cols@.len(),
            widths@.len() == cols@.len(),
            ws == widths@.map_values(|w: usize| w as nat),
            u <= cells@.len(),
            out@.len() == u + 2,
            out@[0]@ == padded_line(headers, ws, true),
            out@[1]@ == rule_line(ws),
            forall|k: int| 0 <= k < u ==> #[trigger] out@[k + 2]@ == padded_line(data[k], ws, false),
        decreases cells@.len() - u,
    {
        out.push(pad_cells(&cells[u], &widths, false));
        u = u + 1;
    }
    proof {
        let expect = table_text(columns@, entries@, rows@, digits as nat, sv, color, quiet);
        assert(texts(out@) =~= expect) by {
            assert(texts(out@).len() == expect.len());
            assert forall|k: int| 0 <= k < expect.len() implies texts(out@)[k] == expect[k] by {
                if k >= 2 {
                    assert(out@[(k - 2) + 2]@ == padded_line(data[k - 2], ws, false));
                }
            }
        }
    }
    out
}

// ---------------------------------------------------------------------------
// CSV and JSON
// ---------------------------------------------------------------------------

/// The columns of the CSV output when none were asked for.
pub open spec fn csv_columns(columns: Seq<ListColumn>) -> Seq<ListColumn> {
    if columns.len() > 0 {
        columns
    } else {
        seq![
            ListColumn::Hrid,
            ListColumn::Title,
            ListColumn::Kind,
            ListColumn::Parents,
            ListColumn::Children,
            ListColumn::Tags,
            ListColumn::Path,
        ]
    }
}

/// The lines of the CSV output: the escaped headers (unless `quiet`), then
/// each row's escaped values, joined by commas.
pub open spec fn csv_text(columns: Seq<ListColumn>, entries: Seq<ListEntry>, rows: Seq<Row>, digits: nat, quiet: bool) -> Seq<Seq<char>> {
    let cols = csv_columns(columns);
    let header = join(cols.map_values(|c: ListColumn| csv_field(column_header(c))), ","@);
    let body = rows.map_values(
        |row: Row| join(cols.map_values(|c: ListColumn| csv_field(column_value(c, entries[row.index as int], digits))), ","@),
    );
    if quiet {
        body
    } else {
        seq![header] + body
    }
}

fn csv_selected(columns: &[ListColumn]) -> (r: Vec<ListColumn>)
    ensures
        r@ == csv_columns(columns@),
{
    if columns.len() > 0 {
        let mut r: Vec<ListColumn> = Vec::new();
        let mut i: usize = 0;
        while i < columns.len()
            invariant
                i <= columns@.len(),
                r@ == columns@.take(i as int),
            decreases columns@.len() - i,
        {
            r.push(columns[i]);
            proof {
                assert(columns@.take(i + 1) =~= columns@.take(i as int).push(columns@[i as int]));
            }
            i = i + 1;
        }
        proof {
            assert(columns@.take(i as int) =~= columns@);
        }
        r
    } else {
        let r = vec![
            ListColumn::Hrid,
            ListColumn::Title,
            ListColumn::Kind,
            ListColumn::Parents,
            ListColumn::Children,
            ListColumn::Tags,
            ListColumn::Path,
        ];
        assert(r@ =~= seq![
            ListColumn::Hrid,
            ListColumn::Title,
            ListColumn::Kind,
            ListColumn::Parents,
            ListColumn::Children,
            ListColumn::Tags,
            ListColumn::Path,
        ]);
        r
    }
}

/// The lines of the CSV output for the rows.
pub fn csv_lines(rows: &[Row], entries: &[ListEntry], columns: &[ListColumn], quiet: bool, digits: usize) -> (r: Vec<String>)
    requires
        forall|t: int| 0 <= t < rows@.len() ==> (#[trigger] rows@[t]).index < entries@.len(),
    ensures
        texts(r@) == csv_text(columns@, entries@, rows@, digits as nat, quiet),
{
    let cols = csv_selected(columns);
    let mut out: Vec<String> = Vec::new();
    let ghost header = join(cols@.map_values(|c: ListColumn| csv_field(column_header(c))), ","@);
    if !quiet {
        let mut hs: Vec<String> = Vec::new();
        let mut c: usize = 0;
        while c < cols.len()
            invariant
                c <= cols@.len(),
                hs@.len() == c,
                forall|k: int| 0 <= k < c ==> #[trigger] hs@[k]@ == csv_field(column_header(cols@[k])),
            decreases cols@.len() - c,
        {
            hs.push(csv_escape(cols[c].header()));
            c = c + 1;
        }
        proof {
            assert(texts(hs@) =~= cols@.map_values(|c: ListColumn| csv_field(column_header(c))));
        }
        out.push(join_with(hs.as_slice(), ","));
    }
    let ghost start = out@.len();
    let mut t: usize = 0;
    while t < rows.len()
        invariant
            forall|t: int| 0 <= t < rows@.len() ==> (#[trigger] rows@[t]).index < entries@.len(),
            t <= rows@.len(),
            start == if quiet { 0int } else { 1int },
            out@.len() == start + t,
            !quiet ==> out@[0]@ == header,
            forall|k: int| 0 <= k < t ==> #[trigger] out@[start + k]@ == join(
                cols@.map_values(|c: ListColumn| csv_field(column_value(c, entries@[rows@[k].index as int], digits as nat))),
                ","@,
            ),
        decreases rows@.len() - t,
    {
        let e = &entries[rows[t].index];
        let mut vs: Vec<String> = Vec::new();
        let mut c: usize = 0;
        while c < cols.len()
            invariant
                c <= cols@.len(),
                *e == entries@[rows@[t as int].index as int],
                vs@.len() == c,
                forall|k: int| 0 <= k < c ==> #[trigger] vs@[k]@ == csv_field(column_value(cols@[k], *e, digits as nat)),
            decreases cols@.len() - c,
        {
            let v = column_value_of(cols[c], e, digits);
            vs.push(csv_escape(v.as_str()));
            c = c + 1;
        }
        proof {
            assert(texts(vs@) =~= cols@.map_values(|c: ListColumn| csv_field(column_value(c, *e, digits as nat))));
        }
        out.push(join_with(vs.as_slice(), ","));
        t = t + 1;
    }
    proof {
        let expect = csv_text(columns@, entries@, rows@, digits as nat, quiet);
        assert(texts(out@) =~= expect) by {
            assert forall|k: int| 0 <= k < expect.len() implies texts(out@)[k] == expect[k] by {
                if k >= start {
                    assert(out@[start + (k - start)]@ == texts(out@)[k]);
                }
            }
        }
    }
    out
}

/// A row of the JSON output: the HRID, and each asked-for column's value
/// (namespace, parents, children and tags only when not empty).
#[derive(Debug)]
pub struct JsonRow {
    pub hrid: String,
    pub title: Option<String>,
    pub kind: Option<String>,
    pub namespace: Option<String>,
    pub parents: Option<String>,
    pub children: Option<String>,
    pub tags: Option<String>,
    pub path: Option<String>,
    pub created: Option<String>,
}

/// The value of a column when asked for.
pub open spec fn when_asked(columns: Seq<ListColumn>, c: ListColumn, v: Seq<char>) -> Option<Seq<char>> {
    if columns.contains(c) {
        Some(v)
    } else {
        None
    }
}

/// The value of a column when asked for and not empty.
pub open spec fn when_present(columns: Seq<ListColumn>, c: ListColumn, v: Seq<char>) -> Option<Seq<char>> {
    if columns.contains(c) && v.len() > 0 {
        Some(v)
    } else {
        None
    }
}

/// The columns of the JSON output when none were asked for.
pub open spec fn json_columns(columns: Seq<ListColumn>) -> Seq<ListColumn> {
    if columns.len() > 0 {
        columns
    } else {
        seq![
            ListColumn::Hrid,
            ListColumn::Title,
            ListColumn::Kind,
            ListColumn::Namespace,
            ListColumn::Parents,
            ListColumn::Children,
            ListColumn::Tags,
            ListColumn::Path,
            ListColumn::Created,
        ]
    }
}

/// The JSON row of an entry for the asked-for columns.
pub fn build_serializable_row(entry: &ListEntry, columns: &[ListColumn], digits: usize) -> (r: JsonRow)
    ensures
        r.hrid@ == spec_display(entry.hrid@, digits as nat),
        crate::rows::opt_text(r.title) == if columns@.contains(ListColumn::Title) { crate::rows::opt_text(entry.title) } else { None },
        crate::rows::opt_text(r.kind) == when_asked(columns@, ListColumn::Kind, entry.hrid@.kind),
        crate::rows::opt_text(r.namespace) == when_present(columns@, ListColumn::Namespace, column_value(ListColumn::Namespace, *entry, digits as nat)),
        crate::rows::opt_text(r.parents) == if columns@.contains(ListColumn::Parents) && entry.parents@.len() > 0 {
            Some(column_value(ListColumn::Parents, *entry, digits as nat))
        } else {
            None
        },
        crate::rows::opt_text(r.children) == if columns@.contains(ListColumn::Children) && entry.children@.len() > 0 {
            Some(column_value(ListColumn::Children, *entry, digits as nat))
        } else {
            None
        },
        crate::rows::opt_text(r.tags) == if columns@.contains(ListColumn::Tags) && entry.tags@.len() > 0 {
            Some(column_value(ListColumn::Tags, *entry, digits as nat))
        } else {
            None
        },
        crate::rows::opt_text(r.path) == when_asked(columns@, ListColumn::Path, entry.path@),
        crate::rows::opt_text(r.created) == when_asked(columns@, ListColumn::Created, column_value(ListColumn::Created, *entry, digits as nat)),
{
    let mut row = JsonRow {
        hrid: entry.hrid.to_string_with_digits(digits),
        title: None,
        kind: None,
        namespace: None,
        parents: None,
        children: None,
        tags: None,
        path: None,
        created: None,
    };
    let mut i: usize = 0;
    while i < columns.len()
        invariant
            i <= columns@.len(),
            row.hrid@ == spec_display(entry.hrid@, digits as nat),
            crate::rows::opt_text(row.title) == if columns@.take(i as int).contains(ListColumn::Title) { crate::rows::opt_text(entry.title) } else { None },
            crate::rows::opt_text(row.kind) == when_asked(columns@.take(i as int), ListColumn::Kind, entry.hrid@.kind),
            crate::rows::opt_text(row.namespace) == when_present(columns@.take(i as int), ListColumn::Namespace, column_value(ListColumn::Namespace, *entry, digits as nat)),
            crate::rows::opt_text(row.parents) == if columns@.take(i as int).contains(ListColumn::Parents) && entry.parents@.len() > 0 {
                Some(column_value(ListColumn::Parents, *entry, digits as nat))
            } else {
                None
            },
            crate::rows::opt_text(row.children) == if columns@.take(i as int).contains(ListColumn::Children) && entry.children@.len() > 0 {
                Some(column_value(ListColumn::Children, *entry, digits as nat))
            } else {
                None
            },
            crate::rows::opt_text(row.tags) == if columns@.take(i as int).contains(ListColumn::Tags) && entry.tags@.len() > 0 {
                Some(column_value(ListColumn::Tags, *entry, digits as nat))
            } else {
                None
            },
            crate::rows::opt_text(row.path) == when_asked(columns@.take(i as int), ListColumn::Path, entry.path@),
            crate::rows::opt_text(row.created) == when_asked(columns@.take(i as int), ListColumn::Created, column_value(ListColumn::Created, *entry, digits as nat)),
        decreases columns@.len() - i,
    {
        let c = columns[i];
        let ghost before = columns@.take(i as int);
        let ghost after = columns@.take(i + 1);
        proof {
            assert(after =~= before.push(c));
            assert forall|x: ListColumn| after.contains(x) == (before.contains(x) || x == c) by {
                if after.contains(x) {
                    let k = choose|k: int| 0 <= k < after.len() && after[k] == x;
                    if k < before.len() {
                        assert(before[k] == x);
                    }
                }
                if before.contains(x) {
                    let k = choose|k: int| 0 <= k < before.len() && before[k] == x;
                    assert(after[k] == x);
                }
                if x == c {
                    assert(after[i as int] == x);
                }
            }
        }
        match c {
            ListColumn::Hrid => {},
            ListColumn::Title => {
                row.title = match &entry.title {
                    Some(t) => Some(copy_string(t)),
                    None => None,
                };
            },
            ListColumn::Kind => {
                row.kind = Some(string_of(entry.hrid.kind()));
            },
            ListColumn::Namespace => {
                let v = column_value_of(ListColumn::Namespace, entry, digits);
                if crate::text::chars_of(v.as_str()).len() > 0 {
                    row.namespace = Some(v);
                }
            },
            ListColumn::Parents => {
                if entry.parents.len() > 0 {
                    row.parents = Some(column_value_of(ListColumn::Parents, entry, digits));
                }
            },
            ListColumn::Children => {
                if entry.children.len() > 0 {
                    row.children = Some(column_value_of(ListColumn::Children, entry, digits));
                }
            },
            ListColumn::Tags => {
                if entry.tags.len() > 0 {
                    row.tags = Some(column_value_of(ListColumn::Tags, entry, digits));
                }
            },
            ListColumn::Path => {
                row.path = Some(copy_string(&entry.path));
            },
            ListColumn::Created => {
                row.created = Some(column_value_of(ListColumn::Created, entry, digits));
            },
        }
        i = i + 1;
    }
    proof {
        assert(columns@.take(i as int) =~= columns@);
    }
    row
}

// ---------------------------------------------------------------------------
// Tree
// ---------------------------------------------------------------------------

/// The first `d` items of `s` (all of them when there are fewer).
pub open spec fn truncated(s: Seq<int>, d: int) -> Seq<int> {
    if s.len() > d {
        s.take(d)
    } else {
        s
    }
}

/// The open rows before row `k`: each row pushed after cutting the list
/// back to its depth.
pub open spec fn open_rows(rows: Seq<Row>, k: int) -> Seq<int>
    decreases k,
{
    if k <= 0 {
        Seq::empty()
    } else {
        truncated(open_rows(rows, k - 1), rows[k - 1].depth as int).push(k - 1)
    }
}

/// The row that row `k` hangs under: the last open row once the list is
/// cut back to its depth.
pub open spec fn tree_parent(rows: Seq<Row>, k: int) -> Option<int> {
    let t = truncated(open_rows(rows, k), rows[k].depth as int);
    if t.len() > 0 {
        Some(t.last())
    } else {
        None
    }
}

/// The last of the first `m` rows that hangs under row `p`.
pub open spec fn last_child_upto(rows: Seq<Row>, p: int, m: int) -> Option<int>
    decreases m,
{
    if m <= 0 {
        None
    } else if tree_parent(rows, m - 1) == Some(p) {
        Some(m - 1)
    } else {
        last_child_upto(rows, p, m - 1)
    }
}

/// The last row that hangs under row `p`.
pub open spec fn last_child(rows: Seq<Row>, p: int) -> Option<int> {
    last_child_upto(rows, p, rows.len() as int)
}

/// The last row before `from` at depth `t`.
pub open spec fn last_at_depth(rows: Seq<Row>, from: int, t: int) -> Option<int>
    decreases from,
{
    if from <= 0 {
        None
    } else if rows[from - 1].depth == t {
        Some(from - 1)
    } else {
        last_at_depth(rows, from - 1, t)
    }
}

/// Searching back from `from` for a row at depth `t`, then from there for
/// one at depth `t - 1`, down to depth zero, stopping at the first miss;
/// the rows found, deepest first.
pub open spec fn chain_back(rows: Seq<Row>, from: int, t: int) -> Seq<int>
    decreases t + 1,
{
    if t < 0 {
        Seq::empty()
    } else {
        match last_at_depth(rows, from, t) {
            None => Seq::empty(),
            Some(x) => seq![x] + chain_back(rows, x, t - 1),
        }
    }
}

/// The drawing before row `k` for each of its ancestors, outermost first.
pub open spec fn tree_prefix(rows: Seq<Row>, k: int, ascii: bool) -> Seq<char> {
    if rows[k].depth == 0 {
        Seq::empty()
    } else {
        let chain = chain_back(rows, k, rows[k].depth - 1).reverse();
        prefix_parts(rows, k, chain, chain.len() as int, ascii)
    }
}

/// The drawing for the first `n` ancestors of `chain`.
pub open spec fn prefix_parts(rows: Seq<Row>, k: int, chain: Seq<int>, n: int, ascii: bool) -> Seq<char>
    decreases n,
{
    if n <= 0 {
        Seq::empty()
    } else {
        let d = n - 1;
        let a = chain[d];
        let part = if d == chain.len() - 1 {
            if last_child(rows, a) == Some(k) {
                if ascii { "`- "@ } else { "└─ "@ }
            } else {
                if ascii { "|- "@ } else { "├─ "@ }
            }
        } else {
            let more = if d == 0 {
                exists|j: int| a < j < rows.len() && #[trigger] rows[j].depth == rows[a].depth
            } else {
                last_child(rows, chain[d - 1]) matches Some(l) && l != a
            };
            if more {
                if ascii { "|  "@ } else { "│  "@ }
            } else {
                "   "@
            }
        };
        prefix_parts(rows, k, chain, n - 1, ascii) + part
    }
}

/// The marker of a row's direction.
pub open spec fn direction_marker(d: Direction) -> Seq<char> {
    match d {
        Direction::Up => "↑ "@,
        Direction::Down => "↓ "@,
        Direction::Neutral => Seq::empty(),
    }
}

/// The lines of the tree output: each row drawn under its ancestors, with
/// its direction, HRID and title.
pub open spec fn tree_text(rows: Seq<Row>, entries: Seq<ListEntry>, ascii: bool, digits: nat) -> Seq<Seq<char>> {
    Seq::new(
        rows.len(),
        |k: int|
            tree_prefix(rows, k, ascii) + direction_marker(rows[k].direction) + spec_display(
                entries[rows[k].index as int].hrid@,
                digits,
            ) + " "@ + title_text(entries[rows[k].index as int]),
    )
}

/// An optional position as an integer.
pub open spec fn opt_int(o: Option<usize>) -> Option<int> {
    match o {
        Some(v) => Some(v as int),
        None => None,
    }
}

fn open_parents(rows: &[Row]) -> (r: Vec<Option<usize>>)
    ensures
        r@.len() == rows@.len(),
        forall|k: int| 0 <= k < rows@.len() ==> opt_int(#[trigger] r@[k]) == tree_parent(rows@, k),
{
    let mut stack: Vec<usize> = Vec::new();
    let mut r: Vec<Option<usize>> = Vec::new();
    let mut k: usize = 0;
    while k < rows.len()
        invariant
            k <= rows@.len(),
            stack@.map_values(|v: usize| v as int) == open_rows(rows@, k as int),
            r@.len() == k,
            forall|j: int| 0 <= j < k ==> opt_int(#[trigger] r@[j]) == tree_parent(rows@, j),
        decreases rows@.len() - k,
    {
        let depth = rows[k].depth;
        let ghost before = open_rows(rows@, k as int);
        proof {
            assert(before.take(stack@.len() as int) =~= before);
        }
        while stack.len() > depth
            invariant
                stack@.len() == before.len() || stack@.len() >= depth,
                stack@.map_values(|v: usize| v as int) == before.take(stack@.len() as int),
                stack@.len() <= before.len(),
            decreases stack@.len(),
        {
            stack.pop();
            proof {
                assert(stack@.map_values(|v: usize| v as int) =~= before.take(stack@.len() as int));
            }
        }
        proof {
            if stack@.len() == before.len() {
                assert(before.take(stack@.len() as int) =~= before);
            }
            assert(stack@.map_values(|v: usize| v as int) =~= truncated(before, depth as int));
        }
        let parent = if stack.len() > 0 { Some(stack[stack.len() - 1]) } else { None };
        r.push(parent);
        stack.push(k);
        proof {
            assert(stack@.map_values(|v: usize| v as int) =~= truncated(before, depth as int).push(k as int));
        }
        k = k + 1;
    }
    r
}

fn last_children(rows: &[Row], parents: &Vec<Option<usize>>) -> (r: Vec<Option<usize>>)
    requires
        parents@.len() == rows@.len(),
        forall|k: int| 0 <= k < rows@.len() ==> opt_int(#[trigger] parents@[k]) == tree_parent(rows@, k),
    ensures
        r@.len() == rows@.len(),
        forall|p: int| 0 <= p < rows@.len() ==> opt_int(#[trigger] r@[p]) == last_child(rows@, p),
{
    let n = rows.len();
    let mut r: Vec<Option<usize>> = Vec::new();
    while r.len() < n
        invariant
            r@.len() <= n,
            forall|p: int| 0 <= p < r@.len() ==> #[trigger] r@[p] is None,
        decreases n - r@.len(),
    {
        r.push(None);
    }
    let mut k: usize = 0;
    while k < n
        invariant
            n == rows@.len(),
            parents@.len() == n,
            forall|k: int| 0 <= k < rows@.len() ==> opt_int(#[trigger] parents@[k]) == tree_parent(rows@, k),
            k <= n,
            r@.len() == n,
            forall|p: int| 0 <= p < n ==> opt_int(#[trigger] r@[p]) == last_child_upto(rows@, p, k as int),
        decreases n - k,
    {
        proof {
            assert(opt_int(parents@[k as int]) == tree_parent(rows@, k as int));
        }
        match parents[k] {
            Some(p) => {
                proof {
                    // A parent is an earlier row.
                    lemma_open_rows_below(rows@, k as int);
                    let t = truncated(open_rows(rows@, k as int), rows@[k as int].depth as int);
                    assert(t.last() == p as int);
                    assert(t.contains(p as int));
                }
                r.set(p, Some(k));
            },
            None => {},
        }
        k = k + 1;
    }
    r
}

proof fn lemma_open_rows_below(rows: Seq<Row>, k: int)
    requires
        0 <= k <= rows.len(),
    ensures
        forall|i: int| 0 <= i < open_rows(rows, k).len() ==> 0 <= #[trigger] open_rows(rows, k)[i] < k,
        forall|d: int, i: int| 0 <= d && 0 <= i < truncated(open_rows(rows, k), d).len() ==> 0 <= #[trigger] truncated(open_rows(rows, k), d)[i] < k,
    decreases k,
{
    if k > 0 {
        lemma_open_rows_below(rows, k - 1);
        let prev = open_rows(rows, k - 1);
        let t = truncated(prev, rows[k - 1].depth as int);
        assert forall|i: int| 0 <= i < t.len() implies #[trigger] t[i] == prev[i] by {}
        assert forall|i: int| 0 <= i < open_rows(rows, k).len() implies 0 <= #[trigger] open_rows(rows, k)[i] < k by {
            if i < t.len() {
                assert(open_rows(rows, k)[i] == t[i]);
            }
        }
    }
    assert forall|d: int, i: int| 0 <= d && 0 <= i < truncated(open_rows(rows, k), d).len() implies 0 <= #[trigger] truncated(open_rows(rows, k), d)[i] < k by {
        assert(truncated(open_rows(rows, k), d)[i] == open_rows(rows, k)[i]);
    }
}

fn find_last_at_depth(rows: &[Row], from: usize, t: usize) -> (r: Option<usize>)
    requires
        from <= rows@.len(),
    ensures
        opt_int(r) == last_at_depth(rows@, from as int, t as int),
        r matches Some(x) ==> x < from,
{
    let mut f = from;
    while f > 0
        invariant
            from <= rows@.len(),
            f <= from,
            last_at_depth(rows@, from as int, t as int) == last_at_depth(rows@, f as int, t as int),
        decreases f,
    {
        if rows[f - 1].depth == t {
            return Some(f - 1);
        }
        f = f - 1;
    }
    None
}

fn chain_of(rows: &[Row], k: usize) -> (r: Vec<usize>)
    requires
        k < rows@.len(),
        rows@[k as int].depth > 0,
    ensures
        r@.map_values(|v: usize| v as int) == chain_back(rows@, k as int, rows@[k as int].depth - 1),
{
    let mut r: Vec<usize> = Vec::new();
    let mut from = k;
    let mut t: usize = rows[k].depth;
    let ghost target = chain_back(rows@, k as int, rows@[k as int].depth - 1);
    while t > 0
        invariant
            from <= rows@.len(),
            t <= rows@[k as int].depth,
            target == chain_back(rows@, k as int, rows@[k as int].depth - 1),
            target == r@.map_values(|v: usize| v as int) + chain_back(rows@, from as int, t - 1),
        decreases t,
    {
        match find_last_at_depth(rows, from, t - 1) {
            None => {
                proof {
                    assert(chain_back(rows@, from as int, t - 1) =~= Seq::<int>::empty());
                    assert(target =~= r@.map_values(|v: usize| v as int));
                }
                return r;
            },
            Some(x) => {
                let ghost prev = r@.map_values(|v: usize| v as int);
                r.push(x);
                proof {
                    assert(r@.map_values(|v: usize| v as int) =~= prev.push(x as int));
                    assert(target =~= r@.map_values(|v: usize| v as int) + chain_back(rows@, x as int, t - 2));
                }
                from = x;
            },
        }
        t = t - 1;
    }
    proof {
        assert(chain_back(rows@, from as int, -1) =~= Seq::<int>::empty());
        assert(target =~= r@.map_values(|v: usize| v as int));
    }
    r
}

fn later_same_depth(rows: &[Row], a: usize) -> (r: bool)
    requires
        a < rows@.len(),
    ensures
        r == exists|j: int| a < j < rows@.len() && #[trigger] rows@[j].depth == rows@[a as int].depth,
{
    let n = rows.len();
    let mut j = a + 1;
    while j < n
        invariant
            n == rows@.len(),
            a < j <= rows@.len(),
            forall|i: int| a < i < j ==> #[trigger] rows@[i].depth != rows@[a as int].depth,
        decreases rows@.len() - j,
    {
        if rows[j].depth == rows[a].depth {
            return true;
        }
        j = j + 1;
    }
    false
}

fn prefix_of(rows: &[Row], k: usize, kids: &Vec<Option<usize>>, ascii: bool) -> (r: String)
    requires
        k < rows@.len(),
        kids@.len() == rows@.len(),
        forall|p: int| 0 <= p < rows@.len() ==> opt_int(#[trigger] kids@[p]) == last_child(rows@, p),
    ensures
        r@ == tree_prefix(rows@, k as int, ascii),
{
    if rows[k].depth == 0 {
        return String::new();
    }
    let back = chain_of(rows, k);
    let ghost bv = back@.map_values(|v: usize| v as int);
    let ghost chain = bv.reverse();
    proof {
        assert forall|i: int| 0 <= i < bv.len() implies 0 <= #[trigger] bv[i] < rows@.len() by {
            lemma_chain_below(rows@, k as int, rows@[k as int].depth - 1, i);
        }
    }
    let n = back.len();
    let mut r = String::new();
    let mut d: usize = 0;
    while d < n
        invariant
            n == back@.len(),
            bv == back@.map_values(|v: usize| v as int),
            chain == bv.reverse(),
            forall|i: int| 0 <= i < bv.len() ==> 0 <= #[trigger] bv[i] < rows@.len(),
            k < rows@.len(),
            kids@.len() == rows@.len(),
            forall|p: int| 0 <= p < rows@.len() ==> opt_int(#[trigger] kids@[p]) == last_child(rows@, p),
            d <= n,
            r@ == prefix_parts(rows@, k as int, chain, d as int, ascii),
        decreases n - d,
    {
        let a = back[n - 1 - d];
        proof {
            assert(chain[d as int] == bv[n - 1 - d]);
            assert(a as int == chain[d as int]);
            assert(opt_int(kids@[a as int]) == last_child(rows@, a as int));
        }
        if d == n - 1 {
            let is_last = match kids[a] {
                Some(l) => l == k,
                None => false,
            };
            if is_last {
                push_str(&mut r, if ascii { "`- " } else { "└─ " });
            } else {
                push_str(&mut r, if ascii { "|- " } else { "├─ " });
            }
        } else {
            let more = if d == 0 {
                later_same_depth(rows, a)
            } else {
                let up = back[n - d];
                proof {
                    assert(chain[d - 1] == bv[n - d]);
                    assert(opt_int(kids@[up as int]) == last_child(rows@, up as int));
                }
                match kids[up] {
                    Some(l) => l != a,
                    None => false,
                }
            };
            if more {
                push_str(&mut r, if ascii { "|  " } else { "│  " });
            } else {
                push_str(&mut r, "   ");
            }
        }
        d = d + 1;
    }
    r
}

proof fn lemma_chain_below(rows: Seq<Row>, from: int, t: int, i: int)
    requires
        0 <= from <= rows.len(),
        0 <= i < chain_back(rows, from, t).len(),
    ensures
        0 <= chain_back(rows, from, t)[i] < from,
    decreases t + 1,
{
    lemma_last_at_depth(rows, from, t);
    if let Some(x) = last_at_depth(rows, from, t) {
        if i > 0 {
            lemma_chain_below(rows, x, t - 1, i - 1);
        }
    }
}

proof fn lemma_last_at_depth(rows: Seq<Row>, from: int, t: int)
    ensures
        last_at_depth(rows, from, t) matches Some(x) ==> 0 <= x < from,
    decreases from,
{
    if from > 0 {
        lemma_last_at_depth(rows, from - 1, t);
    }
}

/// The lines of the tree output for the rows.
pub fn tree_lines(rows: &[Row], entries: &[ListEntry], ascii: bool, digits: usize) -> (r: Vec<String>)
    requires
        forall|t: int| 0 <= t < rows@.len() ==> (#[trigger] rows@[t]).index < entries@.len(),
    ensures
        texts(r@) == tree_text(rows@, entries@, ascii, digits as nat),
{
    let parents = open_parents(rows);
    let kids = last_children(rows, &parents);
    let mut out: Vec<String> = Vec::new();
    let mut k: usize = 0;
    while k < rows.len()
        invariant
            forall|t: int| 0 <= t < rows@.len() ==> (#[trigger] rows@[t]).index < entries@.len(),
            kids@.len() == rows@.len(),
            forall|p: int| 0 <= p < rows@.len() ==> opt_int(#[trigger] kids@[p]) == last_child(rows@, p),
            k <= rows@.len(),
            out@.len() == k,
            forall|j: int| 0 <= j < k ==> #[trigger] out@[j]@ == tree_text(rows@, entries@, ascii, digits as nat)[j],
        decreases rows@.len() - k,
    {
        let row = rows[k];
        let e = &entries[row.index];
        let mut line = prefix_of(rows, k, &kids, ascii);
        match row.direction {
            Direction::Up => push_str(&mut line, "↑ "),
            Direction::Down => push_str(&mut line, "↓ "),
            Direction::Neutral => {},
        }
        push_str(&mut line, e.hrid.to_string_with_digits(digits).as_str());
        push_str(&mut line, " ");
        match &e.title {
            Some(t) => push_str(&mut line, t.as_str()),
            None => {},
        }
        proof {
            if row.direction == Direction::Neutral {
                assert(direction_marker(row.direction) =~= Seq::<char>::empty());
            }
            if e.title is None {
                assert(title_text(*e) =~= Seq::<char>::empty());
            }
            assert(line@ =~= tree_text(rows@, entries@, ascii, digits as nat)[k as int]);
        }
        out.push(line);
        k = k + 1;
    }
    proof {
        assert(texts(out@) =~= tree_text(rows@, entries@, ascii, digits as nat));
    }
    out
}

} // verus!
