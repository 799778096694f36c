//! A whole listing: the entries of a store, filtered, walked along the
//! chosen view, sorted, paged and rendered.

use vstd::prelude::*;

use crate::config::texts;
use crate::directory::Directory;
use crate::hrid::{spec_display, Hrid};
use crate::listing::{apply_offset_limit, paged, truncation_count, ListColumn, ListingView, OutputFormat, Row, SortField};
use crate::render::{csv_lines, csv_text, table_lines, table_text, tree_lines, tree_text};
use crate::rows::{
    apply_sort, children_found, collect_entries, displayed_at, effective_limit, filter_parts, header_text, link_children,
    listing_header, lower_all, opt_text, produce_rows, regex_verdict_of, resolve_targets, same_but_children, snapshot_of,
    sorted_by, truncation_note, view_rows, Filters, ListEntry,
};
use crate::text::{join, push_str, string_of};
use crate::listing::ascii_lower;

verus! {

/// What `req list` was asked for.
pub struct ListOptions {
    pub targets: Vec<Hrid>,
    pub columns: Vec<ListColumn>,
    pub sort: SortField,
    pub output: OutputFormat,
    pub quiet: bool,
    pub kinds: Vec<String>,
    pub namespaces: Vec<String>,
    pub tags: Vec<String>,
    pub orphans: bool,
    pub leaves: bool,
    pub contains: Option<String>,
    pub regex: Option<String>,
    pub view: ListingView,
    pub depth: Option<usize>,
    pub limit: Option<usize>,
    pub offset: Option<usize>,
    pub ascii: bool,
    /// Whether matches of `contains` are highlighted with colour.
    pub color: bool,
}

/// What a listing gives: lines of text, or the rows to serialise as JSON
/// (each an index into `entries`).
pub enum ListOutput {
    Lines(Vec<String>),
    Json { entries: Vec<ListEntry>, rows: Vec<Row> },
}

/// The listing's entries: a snapshot of every requirement, in store order,
/// with the children found among them.
pub open spec fn listed_entries(dir: &Directory, root: Seq<char>, es: Seq<ListEntry>) -> bool {
    let order = dir.tree_view().order();
    exists|e0: Seq<ListEntry>| {
        &&& e0.len() == order.len()
        &&& (forall|i: int| 0 <= i < e0.len() ==> snapshot_of(dir, root, order[i], #[trigger] e0[i]))
        &&& es.len() == e0.len()
        &&& forall|p: int| 0 <= p < es.len() ==> same_but_children(e0[p], #[trigger] es[p], children_found(e0, p, e0.len() as int))
    }
}

/// `f` holds the filters the options ask for.
pub open spec fn filters_of(o: &ListOptions, f: &Filters) -> bool {
    &&& texts(f.kinds@) == lower_all(texts(o.kinds@))
    &&& texts(f.namespaces@) == lower_all(texts(o.namespaces@))
    &&& texts(f.tags@) == lower_all(texts(o.tags@))
    &&& f.orphans == o.orphans
    &&& f.leaves == o.leaves
    &&& opt_text(f.contains) == match o.contains {
        Some(c) => Some(ascii_lower(c@)),
        None => None::<Seq<char>>,
    }
    &&& f.regex is Some == o.regex is Some
    &&& (f.regex matches Some(q) ==> o.regex matches Some(p) && q.source_text() == p@)
}

/// The positions of the targets (every entry when none are given).
pub open spec fn target_positions(es: Seq<ListEntry>, targets: Seq<Hrid>, digits: nat, ts: Seq<usize>) -> bool {
    if targets.len() == 0 {
        ts == Seq::new(es.len(), |i: int| i as usize)
    } else {
        ts.len() == targets.len() && forall|k: int| 0 <= k < targets.len() ==>
            displayed_at(es, digits, spec_display(#[trigger] targets[k]@, digits)) == Some(ts[k] as int)
    }
}

/// The lines shown for the final rows.
pub open spec fn rendered(o: &ListOptions, f: &Filters, es: Seq<ListEntry>, shown: Seq<Row>, cut: nat, digits: nat) -> Seq<Seq<char>> {
    let table = o.output == OutputFormat::Table;
    let header = if !o.quiet && table {
        seq![header_text(o.view, if !f.active() { "none"@ } else { join(filter_parts(f), ", "@) }, o.limit)]
    } else {
        Seq::empty()
    };
    let footer = if cut > 0 && !o.quiet && table {
        seq![""@, "… "@ + "+"@ + crate::hrid::decimal(cut) + " more (use --limit or --offset)"@]
    } else {
        Seq::empty()
    };
    let body = if o.view == ListingView::Tree {
        tree_text(shown, es, o.ascii, digits)
    } else if o.output == OutputFormat::Csv {
        csv_text(o.columns@, es, shown, digits, o.quiet)
    } else {
        table_text(o.columns@, es, shown, digits, opt_text(f.contains), o.color, o.quiet)
    };
    header + body + footer
}

/// A listing that went through: `f` the filters, `ts` the target
/// positions, `rows` the rows of the view, `sorted` the rows in display
/// order, and `out` what is shown.
pub open spec fn listed_with(
    o: &ListOptions,
    f: &Filters,
    es: Seq<ListEntry>,
    digits: nat,
    ts: Seq<usize>,
    rows: Seq<Row>,
    sorted: Seq<Row>,
    out: ListOutput,
) -> bool {
        let hits = Seq::new(es.len(), |i: int| regex_verdict_of(f, es[i]));
        let lim = match o.limit {
            None => Some(crate::rows::default_limit()),
            Some(n) => if n == 0 { None } else { Some(n) },
        };
        let shown = paged(sorted, o.offset, lim);
        let cut = match lim {
            None => 0,
            Some(l) => crate::listing::monus(
                crate::listing::monus(sorted.len() as int, match o.offset { Some(x) => x as int, None => 0 }),
                l as int,
            ),
        };
        &&& (o.regex matches Some(p) ==> crate::rows::regex_valid(p@))
        &&& filters_of(o, f)
        &&& target_positions(es, o.targets@, digits, ts)
        &&& view_rows(o.view, f, es, hits, o.targets@.len() > 0, ts, o.depth, rows)
        &&& (o.view == ListingView::Tree ==> sorted == rows)
        &&& (o.view != ListingView::Tree ==> exists|perm: Seq<int>| sorted_by(es, o.sort, digits, rows, sorted, perm))
        &&& if rows.len() == 0 && f.active() {
            out matches ListOutput::Lines(v) && texts(v@) == seq!["No requirements matched the filters provided."@]
        } else if o.view != ListingView::Tree && o.output == OutputFormat::Json {
            out matches ListOutput::Json { entries, rows: js } && entries@ == es && js@ == shown
        } else {
            out matches ListOutput::Lines(v) && texts(v@) == rendered(o, f, es, shown, cut as nat, digits)
        }
}

/// The outcome of a listing of `dir`.
pub open spec fn listing_outcome(dir: &Directory, root: Seq<char>, o: &ListOptions, r: Result<ListOutput, String>) -> bool {
    let digits = dir.config_view().digits;
    exists|es: Seq<ListEntry>| {
        &&& #[trigger] listed_entries(dir, root, es)
        &&& match r {
            Err(msg) => {
                ||| o.regex matches Some(p) && !crate::rows::regex_valid(p@) && msg@ == "invalid regex: "@ + p@
                ||| (o.regex matches Some(p) ==> crate::rows::regex_valid(p@)) && exists|k: int| 0 <= k < o.targets@.len()
                    && displayed_at(es, digits, spec_display(#[trigger] o.targets@[k]@, digits)) is None
                    && (forall|j: int| 0 <= j < k ==> displayed_at(es, digits, spec_display(#[trigger] o.targets@[j]@, digits)) is Some)
                    && msg@ == "requirement "@ + spec_display(o.targets@[k]@, digits) + " not found"@
            },
            Ok(out) => exists|f: Filters, ts: Seq<usize>, rows: Seq<Row>, sorted: Seq<Row>|
                #[trigger] listed_with(o, &f, es, digits, ts, rows, sorted, out),
        }
    }
}

proof fn lemma_last_index_in(s: Seq<Seq<char>>, key: Seq<char>)
    ensures
        crate::rows::last_index_of(s, key) matches Some(i) ==> 0 <= i < s.len(),
    decreases s.len(),
{
    if s.len() > 0 && s.last() != key {
        lemma_last_index_in(s.drop_last(), key);
    }
}

proof fn lemma_paged_rows(rows: Seq<Row>, offset: Option<usize>, limit: Option<usize>, n: nat)
    requires
        forall|t: int| 0 <= t < rows.len() ==> (#[trigger] rows[t]).index < n,
    ensures
        forall|t: int| 0 <= t < paged(rows, offset, limit).len() ==> (#[trigger] paged(rows, offset, limit)[t]).index < n,
{
    let after = match offset {
        Some(o) => if o < rows.len() { rows.skip(o as int) } else { Seq::empty() },
        None => rows,
    };
    let base: int = match offset {
        Some(o) => if o < rows.len() { o as int } else { 0 },
        None => 0,
    };
    assert forall|t: int| 0 <= t < after.len() implies (#[trigger] after[t]).index < n by {
        assert(after[t] == rows[t + base]);
    }
    let p = paged(rows, offset, limit);
    assert forall|t: int| 0 <= t < p.len() implies (#[trigger] p[t]).index < n by {
        assert(p[t] == after[t]);
    }
}

/// The lines of a listing's final rows: the header, the rendered rows and
/// the note on rows left out.
fn render_listing(
    opts: &ListOptions,
    filters: &Filters,
    entries: &Vec<ListEntry>,
    shown: &Vec<Row>,
    cut: usize,
    digits: usize,
) -> (r: Vec<String>)
    requires
        forall|t: int| 0 <= t < shown@.len() ==> (#[trigger] shown@[t]).index < entries@.len(),
    ensures
        texts(r@) == rendered(opts, filters, entries@, shown@, cut as nat, digits as nat),
{
    let mut lines: Vec<String> = Vec::new();
    let table = opts.output == OutputFormat::Table;
    if !opts.quiet && table {
        lines.push(listing_header(opts.view, filters, opts.limit));
    }
    let ghost head = texts(lines@);
    let body = if opts.view == ListingView::Tree {
        tree_lines(shown.as_slice(), entries.as_slice(), opts.ascii, digits)
    } else if opts.output == OutputFormat::Csv {
        csv_lines(shown.as_slice(), entries.as_slice(), opts.columns.as_slice(), opts.quiet, digits)
    } else {
        table_lines(shown.as_slice(), entries.as_slice(), opts.columns.as_slice(), opts.quiet, &filters.contains, opts.color, digits)
    };
    let mut i: usize = 0;
    while i < body.len()
        invariant
            i <= body@.len(),
            texts(lines@) == head + texts(body@).take(i as int),
        decreases body@.len() - i,
    {
        let ghost lb = texts(lines@);
        lines.push(crate::text::copy_string(&body[i]));
        proof {
            assert(texts(body@).take(i + 1) =~= texts(body@).take(i as int).push(body@[i as int]@));
            assert(texts(lines@) =~= lb.push(body@[i as int]@));
        }
        i = i + 1;
    }
    proof {
        assert(texts(body@).take(i as int) =~= texts(body@));
    }
    let ghost mid = texts(lines@);
    if cut > 0 && !opts.quiet && table {
        lines.push(string_of(""));
        let mut x = string_of("… ");
        push_str(&mut x, truncation_note(cut).as_str());
        lines.push(x);
        proof {
            assert(x@ =~= "… "@ + "+"@ + crate::hrid::decimal(cut as nat) + " more (use --limit or --offset)"@);
        }
    }
    proof {
        let table = opts.output == OutputFormat::Table;
        if !(cut > 0 && !opts.quiet && table) {
            assert(texts(lines@) =~= mid);
        } else {
            assert(texts(lines@) =~= mid + seq![""@, "… "@ + "+"@ + crate::hrid::decimal(cut as nat) + " more (use --limit or --offset)"@]);
        }
        if !opts.quiet && table {
            assert(head =~= seq![header_text(opts.view, if !filters.active() { "none"@ } else { join(filter_parts(filters), ", "@) }, opts.limit)]);
        } else {
            assert(head =~= Seq::<Seq<char>>::empty());
        }
        assert(texts(lines@) =~= rendered(opts, filters, entries@, shown@, cut as nat, digits as nat));
    }
    lines
}

/// Runs a listing of `dir`, with files displayed below `root`: the lines
/// to print, or the rows to serialise; an invalid pattern or an unknown
/// target is refused with its message.
pub fn list_lines(dir: &Directory, root: &str, opts: &ListOptions) -> (r: Result<ListOutput, String>)
    requires
        dir.wf(),
        dir.tree_view().order().len() < usize::MAX,
    ensures
        listing_outcome(dir, root@, opts, r),
{
    let digits = dir.config().digits();
    let collected = collect_entries(dir, root);
    let ghost e0 = collected@;
    let entries = link_children(collected);
    let ghost es = entries@;
    proof {
        assert(listed_entries(dir, root@, es));
    }
    let contains = match &opts.contains {
        Some(c) => Some(crate::text::copy_string(c)),
        None => None,
    };
    let regex = match &opts.regex {
        Some(c) => Some(crate::text::copy_string(c)),
        None => None,
    };
    let filters = match Filters::new(opts.kinds.as_slice(), opts.namespaces.as_slice(), opts.tags.as_slice(), opts.orphans, opts.leaves, contains, regex) {
        Err(msg) => {
            return Err(msg);
        },
        Ok(f) => f,
    };
    let targets: Vec<usize> = if opts.targets.len() == 0 {
        let mut v: Vec<usize> = Vec::new();
        let mut i: usize = 0;
        while i < entries.len()
            invariant
                i <= entries@.len(),
                v@.len() == i,
                forall|j: int| 0 <= j < i ==> #[trigger] v@[j] == j as usize,
            decreases entries@.len() - i,
        {
            v.push(i);
            i = i + 1;
        }
        proof {
            assert(v@ =~= Seq::new(entries@.len(), |i: int| i as usize));
        }
        v
    } else {
        match resolve_targets(entries.as_slice(), opts.targets.as_slice(), digits) {
            Err(msg) => {
                return Err(msg);
            },
            Ok(v) => v,
        }
    };
    proof {
        if opts.targets@.len() > 0 {
            assert forall|k: int| 0 <= k < targets@.len() implies #[trigger] targets@[k] < entries@.len() by {
                let key = spec_display(opts.targets@[k]@, digits as nat);
                lemma_last_index_in(crate::rows::displays(es, digits as nat), key);
            }
        }
        assert(target_positions(es, opts.targets@, digits as nat, targets@));
    }
    let ghost ts = targets@;
    let hits = filters.regex_verdicts(entries.as_slice());
    proof {
        assert(hits@ =~= Seq::new(es.len(), |i: int| regex_verdict_of(&filters, es[i])));
    }
    let rows = produce_rows(opts.view, entries.as_slice(), &filters, hits.as_slice(), opts.targets.len() > 0, targets, opts.depth);
    let ghost rv = rows@;
    if rows.len() == 0 && filters.any() {
        let mut v: Vec<String> = Vec::new();
        v.push(string_of("No requirements matched the filters provided."));
        proof {
            let out = ListOutput::Lines(v);
            assert(texts(v@) =~= seq!["No requirements matched the filters provided."@]);
            assert(filters_of(opts, &filters));
            if opts.view != ListingView::Tree {
                assert(sorted_by(es, opts.sort, digits as nat, rv, rv, Seq::<int>::empty()));
            }
            assert(listed_with(opts, &filters, es, digits as nat, ts, rv, rv, out));
            assert(listing_outcome(dir, root@, opts, Ok::<ListOutput, String>(out)));
        }
        return Ok(ListOutput::Lines(v));
    }
    let sorted = if opts.view != ListingView::Tree {
        apply_sort(rows, entries.as_slice(), opts.sort, digits)
    } else {
        rows
    };
    let ghost sv = sorted@;
    proof {
        assert(forall|t: int| 0 <= t < sv.len() ==> (#[trigger] sv[t]).index < es.len()) by {
            if opts.view != ListingView::Tree {
                let perm = choose|perm: Seq<int>| sorted_by(es, opts.sort, digits as nat, rv, sv, perm);
                assert forall|t: int| 0 <= t < sv.len() implies (#[trigger] sv[t]).index < es.len() by {
                    assert(sv[t] == rv[perm[t]]);
                }
            }
        }
    }
    let lim = effective_limit(opts.limit);
    let cut = truncation_count(sorted.len(), opts.offset, lim);
    let shown = apply_offset_limit(sorted, opts.offset, lim);
    let ghost shv = shown@;
    proof {
        lemma_paged_rows(sv, opts.offset, lim, es.len());
        assert(forall|t: int| 0 <= t < shv.len() ==> (#[trigger] shv[t]).index < es.len());
    }
    if opts.view != ListingView::Tree && opts.output == OutputFormat::Json {
        let out = ListOutput::Json { entries, rows: shown };
        proof {
            assert(listed_with(opts, &filters, es, digits as nat, ts, rv, sv, out));
            assert(listing_outcome(dir, root@, opts, Ok::<ListOutput, String>(out)));
        }
        return Ok(out);
    }
    let lines = render_listing(opts, &filters, &entries, &shown, cut, digits);
    proof {
        let out = ListOutput::Lines(lines);
        assert(listed_with(opts, &filters, es, digits as nat, ts, rv, sv, out));
        assert(listing_outcome(dir, root@, opts, Ok::<ListOutput, String>(out)));
    }
    Ok(ListOutput::Lines(lines))
}

} // verus!
