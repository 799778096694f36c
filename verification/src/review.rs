//! Reviewing suspect links: which links a review covers, their statistics,
//! and the lines of each way of showing them.

use vstd::prelude::*;

use crate::config::{insert_sorted, texts, to_uppercase, uppercase};
use crate::directory::{uuid_of, Directory};
use crate::hrid::{spec_display, Hrid, SpecHrid};
use crate::render::spaces;
use crate::rows::display_path;
use crate::hrid::decimal;
use crate::text::{copy_string, push_str, str_eq, string_of, text_lt};
use crate::tree::{SuspectLink, Tree};

verus! {

// ---------------------------------------------------------------------------
// Which links
// ---------------------------------------------------------------------------

/// The link passes the review's filters: its child HRID, its parent HRID,
/// and its child's kind, compared with the given kind in upper case.
pub open spec fn link_selected(l: SuspectLink, child: Option<SpecHrid>, parent: Option<SpecHrid>, kind: Option<Seq<char>>) -> bool {
    &&& (child matches Some(c) ==> l.child_hrid@ == c)
    &&& (parent matches Some(p) ==> l.parent_hrid@ == p)
    &&& (kind matches Some(k) ==> l.child_hrid@.kind == uppercase(k))
}

/// The links that pass the filters, in order.
pub open spec fn selected_links(
    links: Seq<SuspectLink>,
    child: Option<SpecHrid>,
    parent: Option<SpecHrid>,
    kind: Option<Seq<char>>,
) -> Seq<SuspectLink>
    decreases links.len(),
{
    if links.len() == 0 {
        Seq::empty()
    } else {
        let prev = selected_links(links.drop_last(), child, parent, kind);
        if link_selected(links.last(), child, parent, kind) {
            prev.push(links.last())
        } else {
            prev
        }
    }
}

/// An optional HRID as a value.
pub open spec fn opt_hrid(h: Option<Hrid>) -> Option<SpecHrid> {
    match h {
        Some(x) => Some(x@),
        None => None,
    }
}

/// An optional text as a value.
pub open spec fn opt_str(s: Option<String>) -> Option<Seq<char>> {
    match s {
        Some(x) => Some(x@),
        None => None,
    }
}

/// Keeps the suspect links that pass the `--child`, `--parent` and
/// `--kind` filters.
pub fn filter_suspect_links(
    links: Vec<SuspectLink>,
    child: &Option<Hrid>,
    parent: &Option<Hrid>,
    kind: &Option<String>,
) -> (r: Vec<SuspectLink>)
    ensures
        r@ == selected_links(links@, opt_hrid(*child), opt_hrid(*parent), opt_str(*kind)),
{
    let upper: Option<String> = match kind {
        Some(k) => Some(to_uppercase(k.as_str())),
        None => None,
    };
    let ghost c = opt_hrid(*child);
    let ghost p = opt_hrid(*parent);
    let ghost k = opt_str(*kind);
    let mut links = links;
    let ghost all = links@;
    let mut rev: Vec<SuspectLink> = Vec::new();
    while links.len() > 0
        invariant
            all == links@ + rev@.reverse(),
        decreases links@.len(),
    {
        let ghost before = links@;
        let l = links.pop().unwrap();
        let ghost rb = rev@;
        rev.push(l);
        proof {
            assert(before == links@.push(l));
            assert(rev@.reverse() =~= seq![l] + rb.reverse());
            assert(all =~= links@ + rev@.reverse());
        }
    }
    proof {
        assert(links@ + rev@.reverse() =~= rev@.reverse());
    }
    let mut kept: Vec<SuspectLink> = Vec::new();
    while rev.len() > 0
        invariant
            rev@.len() <= all.len(),
            all == all.take(all.len() - rev@.len()) + rev@.reverse(),
            c == opt_hrid(*child),
            p == opt_hrid(*parent),
            k == opt_str(*kind),
            opt_str(upper) == match k {
                Some(t) => Some(uppercase(t)),
                None => None::<Seq<char>>,
            },
            kept@ == selected_links(all.take(all.len() - rev@.len()), c, p, k),
        decreases rev@.len(),
    {
        let ghost n = all.len() - rev@.len();
        let ghost rb = rev@;
        let l = rev.pop().unwrap();
        proof {
            assert(rb == rev@.push(l));
            assert(rb.reverse() =~= seq![l] + rev@.reverse());
            assert(all[n] == rb.reverse()[0]);
            assert(all.take(n + 1).drop_last() =~= all.take(n));
            assert(all.take(n + 1).last() == l);
            assert(all =~= all.take(n + 1) + rev@.reverse());
        }
        let mut keep = true;
        match child {
            Some(h) => {
                if !l.child_hrid.same_as(h) {
                    keep = false;
                }
            },
            None => {},
        }
        match parent {
            Some(h) => {
                if !l.parent_hrid.same_as(h) {
                    keep = false;
                }
            },
            None => {},
        }
        match &upper {
            Some(u) => {
                if !str_eq(l.child_hrid.kind(), u.as_str()) {
                    keep = false;
                }
            },
            None => {},
        }
        if keep {
            kept.push(l);
        }
    }
    proof {
        assert(all.take(all.len() as int) =~= all);
    }
    kept
}

// ---------------------------------------------------------------------------
// Titles and files
// ---------------------------------------------------------------------------

/// The title of the requirement with HRID `h`, if there is one.
pub open spec fn title_for(t: Tree, h: SpecHrid) -> Option<Seq<char>> {
    if t.has_hrid(h) {
        Some(t.reqs()[uuid_of(t, h)].title)
    } else {
        None
    }
}

/// The title of the requirement with this HRID, if there is one.
pub fn requirement_title(dir: &Directory, h: &Hrid) -> (r: Option<String>)
    requires
        dir.wf(),
    ensures
        opt_str(r) == title_for(dir.tree_view(), h@),
{
    proof {
        dir.lemma_tree_wf();
    }
    match dir.tree().find_by_hrid(h) {
        Some(v) => {
            proof {
                let t = dir.tree_view();
                let w = uuid_of(t, h@);
                t.lemma_hrid_unique(v.uuid, w);
            }
            Some(v.title)
        },
        None => None,
    }
}

/// The title, or the empty text.
pub open spec fn title_or_empty(t: Tree, h: SpecHrid) -> Seq<char> {
    match title_for(t, h) {
        Some(x) => x,
        None => Seq::empty(),
    }
}

pub(crate) fn title_or_empty_of(dir: &Directory, h: &Hrid) -> (r: String)
    requires
        dir.wf(),
    ensures
        r@ == title_or_empty(dir.tree_view(), h@),
{
    match requirement_title(dir, h) {
        Some(t) => t,
        None => String::new(),
    }
}

/// The file of the requirement with HRID `h`: its recorded file, else the
/// canonical one for the HRID.
pub open spec fn file_for(dir: &Directory, h: SpecHrid) -> Seq<Seq<char>> {
    let t = dir.tree_view();
    if t.has_hrid(h) && dir.path_map().contains_key(uuid_of(t, h)) {
        dir.path_map()[uuid_of(t, h)]
    } else {
        dir.canonical(h)
    }
}

/// The file of the requirement with this HRID, displayed below `root`.
pub fn link_path(dir: &Directory, root: &str, h: &Hrid) -> (r: String)
    requires
        dir.wf(),
    ensures
        r@ == display_path(root@, file_for(dir, h@)),
{
    let found = dir.path_for(h);
    proof {
        dir.lemma_tree_wf();
        let t = dir.tree_view();
        if let Some(ref p) = found {
            let w = choose|w: u128| t.reqs().contains_key(w) && t.reqs()[w].hrid == h@ && dir.path_map().contains_key(w)
                && #[trigger] dir.path_map()[w] == texts(p@);
            assert(t.has_hrid(h@));
            let u = uuid_of(t, h@);
            t.lemma_hrid_unique(u, w);
        } else {
            if t.has_hrid(h@) {
                let u = uuid_of(t, h@);
                assert(t.reqs().contains_key(u) && t.reqs()[u].hrid == h@);
            }
        }
    }
    let file = match found {
        Some(p) => p,
        None => dir.canonical_path_for(h),
    };
    crate::rows::path_text(root, &file)
}

// ---------------------------------------------------------------------------
// Grouping and counting
// ---------------------------------------------------------------------------

/// The HRID a link is grouped by: its parent's or its child's, displayed.
pub open spec fn link_key(l: SuspectLink, by_parent: bool, digits: nat) -> Seq<char> {
    if by_parent {
        spec_display(l.parent_hrid@, digits)
    } else {
        spec_display(l.child_hrid@, digits)
    }
}

/// The grouping keys of the links, in order.
pub open spec fn link_keys(links: Seq<SuspectLink>, by_parent: bool, digits: nat) -> Seq<Seq<char>> {
    links.map_values(|l: SuspectLink| link_key(l, by_parent, digits))
}

/// Texts in strictly increasing order.
pub open spec fn ascending(v: Seq<Seq<char>>) -> bool {
    forall|i: int, j: int| 0 <= i < j < v.len() ==> text_lt(#[trigger] v[i], #[trigger] v[j])
}

/// How many times `k` occurs in `s`.
pub open spec fn occurrences(s: Seq<Seq<char>>, k: Seq<char>) -> nat
    decreases s.len(),
{
    if s.len() == 0 {
        0
    } else {
        occurrences(s.drop_last(), k) + if s.last() == k {
            1nat
        } else {
            0nat
        }
    }
}

fn key_strings(links: &[SuspectLink], by_parent: bool, digits: usize) -> (r: Vec<String>)
    ensures
        texts(r@) == link_keys(links@, by_parent, digits as nat),
{
    let mut r: Vec<String> = Vec::new();
    let mut i: usize = 0;
    while i < links.len()
        invariant
            i <= links@.len(),
            r@.len() == i,
            forall|j: int| 0 <= j < i ==> #[trigger] r@[j]@ == link_key(links@[j], by_parent, digits as nat),
        decreases links@.len() - i,
    {
        let k = if by_parent {
            links[i].parent_hrid.to_string_with_digits(digits)
        } else {
            links[i].child_hrid.to_string_with_digits(digits)
        };
        r.push(k);
        i = i + 1;
    }
    assert(texts(r@) =~= link_keys(links@, by_parent, digits as nat));
    r
}

fn contains_string(v: &Vec<String>, t: &str) -> (r: bool)
    ensures
        r == texts(v@).contains(t@),
{
    let mut i: usize = 0;
    while i < v.len()
        invariant
            i <= v@.len(),
            forall|j: int| 0 <= j < i ==> #[trigger] v@[j]@ != t@,
        decreases v@.len() - i,
    {
        if str_eq(v[i].as_str(), t) {
            proof {
                assert(texts(v@)[i as int] == t@);
            }
            return true;
        }
        i = i + 1;
    }
    proof {
        if texts(v@).contains(t@) {
            let j = choose|j: int| 0 <= j < texts(v@).len() && texts(v@)[j] == t@;
            assert(v@[j]@ == t@);
        }
    }
    false
}

/// The distinct texts of `keys`, in increasing order.
pub fn distinct_sorted(keys: &Vec<String>) -> (r: Vec<String>)
    ensures
        ascending(texts(r@)),
        texts(r@).to_set() == texts(keys@).to_set(),
{
    let mut r: Vec<String> = Vec::new();
    let mut i: usize = 0;
    while i < keys.len()
        invariant
            i <= keys@.len(),
            ascending(texts(r@)),
            texts(r@).to_set() == texts(keys@).take(i as int).to_set(),
        decreases keys@.len() - i,
    {
        let ghost prev = texts(keys@).take(i as int);
        proof {
            assert(texts(keys@).take(i + 1) =~= prev.push(keys@[i as int]@));
            prev.lemma_push_to_set_commute(keys@[i as int]@);
        }
        if !contains_string(&r, keys[i].as_str()) {
            proof {
                assert forall|j: int| 0 <= j < r@.len() implies r@[j]@ != keys@[i as int]@ by {
                    assert(texts(r@)[j] == r@[j]@);
                }
                assert forall|a: int, b: int| 0 <= a < b < r@.len() implies text_lt(r@[a]@, r@[b]@) by {
                    assert(texts(r@)[a] == r@[a]@ && texts(r@)[b] == r@[b]@);
                }
            }
            insert_sorted(&mut r, copy_string(&keys[i]));
            proof {
                assert forall|a: int, b: int| 0 <= a < b < texts(r@).len() implies text_lt(#[trigger] texts(r@)[a], #[trigger] texts(r@)[b]) by {
                    assert(texts(r@)[a] == r@[a]@ && texts(r@)[b] == r@[b]@);
                }
            }
        } else {
            proof {
                assert(texts(r@).to_set() =~= prev.to_set().insert(keys@[i as int]@));
            }
        }
        i = i + 1;
    }
    proof {
        assert(texts(keys@).take(i as int) =~= texts(keys@));
    }
    r
}

/// How many times `k` occurs among `keys`.
fn count_of(keys: &Vec<String>, k: &str) -> (r: usize)
    ensures
        r == occurrences(texts(keys@), k@),
{
    let mut n: usize = 0;
    let mut i: usize = 0;
    while i < keys.len()
        invariant
            i <= keys@.len(),
            n == occurrences(texts(keys@).take(i as int), k@),
            n <= i,
        decreases keys@.len() - i,
    {
        proof {
            assert(texts(keys@).take(i + 1).drop_last() =~= texts(keys@).take(i as int));
            assert(texts(keys@).take(i + 1).last() == keys@[i as int]@);
        }
        if str_eq(keys[i].as_str(), k) {
            n = n + 1;
        }
        i = i + 1;
    }
    proof {
        assert(texts(keys@).take(i as int) =~= texts(keys@));
    }
    n
}

/// Counted keys as values.
pub open spec fn tallies(v: Seq<(String, usize)>) -> Seq<(Seq<char>, nat)> {
    v.map_values(|p: (String, usize)| (p.0@, p.1 as nat))
}

/// The distinct keys of `keys` in increasing order, each with how often it
/// occurs.
pub open spec fn counted(v: Seq<(Seq<char>, nat)>, keys: Seq<Seq<char>>) -> bool {
    &&& forall|i: int, j: int| 0 <= i < j < v.len() ==> #[trigger] v[i].0 != #[trigger] v[j].0
    &&& v.map_values(|p: (Seq<char>, nat)| p.0).to_set() == keys.to_set()
    &&& forall|i: int| 0 <= i < v.len() ==> (#[trigger] v[i]).1 == occurrences(keys, v[i].0)
}

/// Most frequent first, ties in increasing key order.
pub open spec fn ranked(v: Seq<(Seq<char>, nat)>) -> bool {
    forall|i: int, j: int| 0 <= i < j < v.len() ==> (#[trigger] v[i]).1 > (#[trigger] v[j]).1 || (v[i].1 == v[j].1 && text_lt(v[i].0, v[j].0))
}

/// The keys with their counts, in increasing key order.
fn tally(keys: &Vec<String>) -> (r: Vec<(String, usize)>)
    ensures
        counted(tallies(r@), texts(keys@)),
        forall|i: int, j: int| 0 <= i < j < r@.len() ==> text_lt(#[trigger] r@[i].0@, #[trigger] r@[j].0@),
{
    let distinct = distinct_sorted(keys);
    let mut r: Vec<(String, usize)> = Vec::new();
    let mut i: usize = 0;
    while i < distinct.len()
        invariant
            ascending(texts(distinct@)),
            texts(distinct@).to_set() == texts(keys@).to_set(),
            i <= distinct@.len(),
            r@.len() == i,
            forall|j: int| 0 <= j < i ==> #[trigger] r@[j].0@ == distinct@[j]@ && r@[j].1 == occurrences(texts(keys@), distinct@[j]@),
        decreases distinct@.len() - i,
    {
        let c = count_of(keys, distinct[i].as_str());
        r.push((copy_string(&distinct[i]), c));
        i = i + 1;
    }
    proof {
        let tv = tallies(r@);
        assert(tv.map_values(|p: (Seq<char>, nat)| p.0) =~= texts(distinct@));
        assert forall|a: int, b: int| 0 <= a < b < r@.len() implies text_lt(#[trigger] r@[a].0@, #[trigger] r@[b].0@) by {
            assert(texts(distinct@)[a] == distinct@[a]@ && texts(distinct@)[b] == distinct@[b]@);
        }
        assert forall|a: int, b: int| 0 <= a < b < tv.len() implies #[trigger] tv[a].0 != #[trigger] tv[b].0 by {
            assert(texts(distinct@)[a] == distinct@[a]@ && texts(distinct@)[b] == distinct@[b]@);
            crate::text::lemma_text_lt_irrefl(tv[a].0);
        }
    }
    r
}

/// The counted keys reordered by count, most frequent first (stable, so
/// ties stay in increasing key order).
fn rank(v: Vec<(String, usize)>) -> (r: Vec<(String, usize)>)
    requires
        forall|i: int, j: int| 0 <= i < j < v@.len() ==> text_lt(#[trigger] v@[i].0@, #[trigger] v@[j].0@),
    ensures
        ranked(tallies(r@)),
        tallies(r@).to_multiset() == tallies(v@).to_multiset(),
        r@.len() == v@.len(),
{
    let mut out: Vec<(String, usize)> = Vec::new();
    let mut i: usize = 0;
    proof {
        assert(tallies(out@) =~= tallies(v@.take(0)));
    }
    while i < v.len()
        invariant
            forall|i: int, j: int| 0 <= i < j < v@.len() ==> text_lt(#[trigger] v@[i].0@, #[trigger] v@[j].0@),
            i <= v@.len(),
            out@.len() == i,
            ranked(tallies(out@)),
            tallies(out@).to_multiset() == tallies(v@.take(i as int)).to_multiset(),
            forall|a: int| 0 <= a < out@.len() ==> exists|b: int| 0 <= b < i && #[trigger] out@[a].0@ == v@[b].0@,
        decreases v@.len() - i,
    {
        let x_count = v[i].1;
        let mut p: usize = out.len();
        while p > 0 && out[p - 1].1 < x_count
            invariant
                p <= out@.len(),
                forall|a: int| p <= a < out@.len() ==> (#[trigger] out@[a]).1 < x_count,
            decreases p,
        {
            p = p - 1;
        }
        let ghost before = out@;
        let x = (copy_string(&v[i].0), x_count);
        out.insert(p, x);
        proof {
            let xt = (x.0@, x.1 as nat);
            let tb = tallies(before);
            let to = tallies(out@);
            assert(to =~= tb.insert(p as int, xt));
            // Every earlier key is smaller than this one.
            assert forall|a: int| 0 <= a < before.len() implies text_lt(#[trigger] before[a].0@, x.0@) by {
                let b = choose|b: int| 0 <= b < i && #[trigger] before[a].0@ == v@[b].0@;
                assert(text_lt(v@[b].0@, v@[i as int].0@));
            }
            assert forall|a: int, b: int| 0 <= a < b < to.len() implies (#[trigger] to[a]).1 > (#[trigger] to[b]).1
                || (to[a].1 == to[b].1 && text_lt(to[a].0, to[b].0)) by {
                if b < p {
                    assert(to[a] == tb[a] && to[b] == tb[b]);
                } else if b == p {
                    assert(to[a] == tb[a]);
                    if p > 0 {
                        assert(!(before[p - 1].1 < x_count));
                        if a < p - 1 {
                            assert(tb[a].1 > tb[p - 1].1 || (tb[a].1 == tb[p - 1].1 && text_lt(tb[a].0, tb[p - 1].0)));
                        }
                    }
                    assert(text_lt(before[a].0@, x.0@));
                } else if a < p {
                    assert(to[a] == tb[a] && to[b] == tb[b - 1]);
                } else if a == p {
                    assert(to[b] == tb[b - 1]);
                    assert(before[b - 1].1 < x_count);
                } else {
                    assert(to[a] == tb[a - 1] && to[b] == tb[b - 1]);
                }
            }
            assert(v@.take(i + 1) =~= v@.take(i as int).push(v@[i as int]));
            assert(tallies(v@.take(i + 1)) =~= tallies(v@.take(i as int)).push(xt));
            vstd::seq_lib::to_multiset_insert(tb, p as int, xt);
            vstd::seq_lib::to_multiset_build(tallies(v@.take(i as int)), xt);
            assert forall|a: int| 0 <= a < out@.len() implies exists|b: int| 0 <= b < i + 1 && #[trigger] out@[a].0@ == v@[b].0@ by {
                if a < p {
                    assert(out@[a] == before[a]);
                    let b = choose|b: int| 0 <= b < i && #[trigger] before[a].0@ == v@[b].0@;
                } else if a == p {
                    assert(out@[a].0@ == v@[i as int].0@);
                } else {
                    assert(out@[a] == before[a - 1]);
                    let b = choose|b: int| 0 <= b < i && #[trigger] before[a - 1].0@ == v@[b].0@;
                }
            }
        }
        i = i + 1;
    }
    proof {
        assert(v@.take(i as int) =~= v@);
    }
    out
}


/// A ranked list that holds the same counted keys as a counted list is
/// itself counted over the same keys.
proof fn lemma_ranked_counted(r: Seq<(Seq<char>, nat)>, v: Seq<(Seq<char>, nat)>, keys: Seq<Seq<char>>)
    requires
        counted(v, keys),
        ranked(r),
        r.to_multiset() == v.to_multiset(),
    ensures
        counted(r, keys),
{
    broadcast use vstd::seq_lib::to_multiset_contains;
    assert forall|i: int| 0 <= i < r.len() implies (#[trigger] r[i]).1 == occurrences(keys, r[i].0) by {
        assert(r.contains(r[i]));
        assert(r.to_multiset().count(r[i]) > 0);
        assert(v.to_multiset().count(r[i]) > 0);
        assert(v.contains(r[i]));
        let j = choose|j: int| 0 <= j < v.len() && v[j] == r[i];
        assert(v[j].1 == occurrences(keys, v[j].0));
    }
    assert forall|i: int, j: int| 0 <= i < j < r.len() implies #[trigger] r[i].0 != #[trigger] r[j].0 by {
        if r[i].0 == r[j].0 {
            assert(r[i].1 == occurrences(keys, r[i].0));
            assert(r[j].1 == occurrences(keys, r[j].0));
            crate::text::lemma_text_lt_irrefl(r[i].0);
        }
    }
    let rk = r.map_values(|p: (Seq<char>, nat)| p.0);
    let vk = v.map_values(|p: (Seq<char>, nat)| p.0);
    assert forall|k: Seq<char>| #[trigger] rk.to_set().contains(k) <==> vk.to_set().contains(k) by {
        if rk.to_set().contains(k) {
            assert(rk.contains(k));
            let i = choose|i: int| 0 <= i < rk.len() && rk[i] == k;
            assert(r.contains(r[i]));
            assert(r.to_multiset().count(r[i]) > 0);
            assert(v.contains(r[i]));
            let j = choose|j: int| 0 <= j < v.len() && v[j] == r[i];
            assert(vk[j] == k);
        }
        if vk.to_set().contains(k) {
            assert(vk.contains(k));
            let j = choose|j: int| 0 <= j < vk.len() && vk[j] == k;
            assert(v.contains(v[j]));
            assert(v.to_multiset().count(v[j]) > 0);
            assert(r.contains(v[j]));
            let i = choose|i: int| 0 <= i < r.len() && r[i] == v[j];
            assert(rk[i] == k);
        }
    }
    assert(rk.to_set() =~= vk.to_set());
}

// ---------------------------------------------------------------------------
// Statistics
// ---------------------------------------------------------------------------

/// The child kinds of the links, in order.
pub open spec fn child_kinds(links: Seq<SuspectLink>) -> Seq<Seq<char>> {
    links.map_values(|l: SuspectLink| l.child_hrid@.kind)
}

/// The first `n` entries, or all of them where there are fewer.
pub open spec fn first_n<T>(s: Seq<T>, n: nat) -> Seq<T> {
    if s.len() <= n {
        s
    } else {
        s.take(n as int)
    }
}

/// Statistics over a list of suspect links.
pub struct LinkStats {
    /// How many links there are.
    pub total: usize,
    /// How many distinct parents they have.
    pub unique_parents: usize,
    /// How many distinct children they have.
    pub unique_children: usize,
    /// Each child kind with its number of links, in increasing kind order.
    pub by_kind: Vec<(String, usize)>,
    /// The (at most three) parents with the most suspect children, most
    /// first, ties in increasing HRID order; empty where only one parent is
    /// affected.
    pub top_parents: Vec<(String, usize)>,
}

/// The statistics of `links` are those that `s` holds.
pub open spec fn stats_of(s: LinkStats, links: Seq<SuspectLink>, digits: nat) -> bool {
    let parents = link_keys(links, true, digits);
    let children = link_keys(links, false, digits);
    &&& s.total == links.len()
    &&& s.unique_parents == parents.to_set().len()
    &&& s.unique_children == children.to_set().len()
    &&& counted(tallies(s.by_kind@), child_kinds(links))
    &&& ascending(tallies(s.by_kind@).map_values(|p: (Seq<char>, nat)| p.0))
    &&& (parents.to_set().len() > 1 ==> exists|full: Seq<(Seq<char>, nat)>|
        counted(full, parents) && ranked(full) && tallies(s.top_parents@) == #[trigger] first_n(full, 3))
    &&& (parents.to_set().len() <= 1 ==> s.top_parents@.len() == 0)
}

fn kind_strings(links: &[SuspectLink]) -> (r: Vec<String>)
    ensures
        texts(r@) == child_kinds(links@),
{
    let mut r: Vec<String> = Vec::new();
    let mut i: usize = 0;
    while i < links.len()
        invariant
            i <= links@.len(),
            r@.len() == i,
            forall|j: int| 0 <= j < i ==> #[trigger] r@[j]@ == links@[j].child_hrid@.kind,
        decreases links@.len() - i,
    {
        r.push(string_of(links[i].child_hrid.kind()));
        i = i + 1;
    }
    assert(texts(r@) =~= child_kinds(links@));
    r
}

/// The number of distinct texts among `keys`.
fn distinct_count(keys: &Vec<String>) -> (r: usize)
    ensures
        r == texts(keys@).to_set().len(),
{
    let d = distinct_sorted(keys);
    proof {
        let t = texts(d@);
        assert forall|i: int, j: int| 0 <= i < t.len() && 0 <= j < t.len() && i != j implies t[i] != t[j] by {
            if i < j {
                crate::text::lemma_text_lt_irrefl(t[i]);
            } else {
                crate::text::lemma_text_lt_irrefl(t[j]);
            }
        }
        assert(t.no_duplicates());
        t.unique_seq_to_set();
    }
    d.len()
}

/// The statistics that `req review --stats` shows.
pub fn link_stats(links: &[SuspectLink], digits: usize) -> (r: LinkStats)
    ensures
        stats_of(r, links@, digits as nat),
{
    let parents = key_strings(links, true, digits);
    let children = key_strings(links, false, digits);
    let kinds = kind_strings(links);
    let unique_parents = distinct_count(&parents);
    let unique_children = distinct_count(&children);
    let by_kind = tally(&kinds);
    proof {
        let kv = tallies(by_kind@).map_values(|p: (Seq<char>, nat)| p.0);
        assert forall|i: int, j: int| 0 <= i < j < kv.len() implies text_lt(#[trigger] kv[i], #[trigger] kv[j]) by {
            assert(kv[i] == by_kind@[i].0@ && kv[j] == by_kind@[j].0@);
        }
    }
    let mut top: Vec<(String, usize)> = Vec::new();
    if unique_parents > 1 {
        let counts = tally(&parents);
        let ranked_counts = rank(counts);
        proof {
            lemma_ranked_counted(tallies(ranked_counts@), tallies(counts@), texts(parents@));
        }
        let mut i: usize = 0;
        while i < ranked_counts.len() && i < 3
            invariant
                i <= ranked_counts@.len(),
                i <= 3,
                top@.len() == i,
                forall|j: int| 0 <= j < i ==> #[trigger] tallies(top@)[j] == tallies(ranked_counts@)[j],
            decreases ranked_counts@.len() - i,
        {
            let ghost tb = top@;
            top.push((copy_string(&ranked_counts[i].0), ranked_counts[i].1));
            proof {
                assert forall|j: int| 0 <= j < i + 1 implies #[trigger] tallies(top@)[j] == tallies(ranked_counts@)[j] by {
                    if j < i {
                        assert(top@[j] == tb[j]);
                        assert(tallies(tb)[j] == tallies(ranked_counts@)[j]);
                    } else {
                        assert(top@[j].0@ == ranked_counts@[j].0@);
                        assert(top@[j].1 == ranked_counts@[j].1);
                    }
                }
            }
            i = i + 1;
        }
        proof {
            let full = tallies(ranked_counts@);
            assert(tallies(top@) =~= first_n(full, 3));
        }
    }
    LinkStats { total: links.len(), unique_parents, unique_children, by_kind, top_parents: top }
}

/// `  KIND  →  *     N links`
pub open spec fn kind_line(p: (Seq<char>, nat)) -> Seq<char> {
    "  "@ + p.0 + "  →  *     "@ + decimal(p.1) + " links"@
}

/// `  HRID  (N children)`
pub open spec fn parent_line(p: (Seq<char>, nat)) -> Seq<char> {
    "  "@ + p.0 + "  ("@ + decimal(p.1) + " children)"@
}

/// The lines of the statistics block.
pub open spec fn stats_text(s: LinkStats) -> Seq<Seq<char>> {
    let kinds = tallies(s.by_kind@);
    let head = seq![
        "Suspect Link Statistics"@,
        ""@,
        "Total suspect links:       "@ + decimal(s.total as nat),
        "Unique parents affected:   "@ + decimal(s.unique_parents as nat),
        "Unique children affected:  "@ + decimal(s.unique_children as nat),
        ""@
    ];
    let by_kind = if kinds.len() > 0 {
        seq!["By child requirement kind:"@] + kinds.map_values(|p: (Seq<char>, nat)| kind_line(p)) + seq![""@]
    } else {
        Seq::empty()
    };
    let top = if s.unique_parents > 1 {
        seq!["Most affected parents:"@] + tallies(s.top_parents@).map_values(|p: (Seq<char>, nat)| parent_line(p))
    } else {
        Seq::empty()
    };
    head + by_kind + top
}

fn counted_lines(v: &Vec<(String, usize)>, before: &str, between: &str, after: &str, out: &mut Vec<String>)
    ensures
        texts(final(out)@) == texts(old(out)@) + tallies(v@).map_values(
            |p: (Seq<char>, nat)| before@ + p.0 + between@ + decimal(p.1) + after@,
        ),
{
    let ghost start = texts(out@);
    let ghost f = |p: (Seq<char>, nat)| before@ + p.0 + between@ + decimal(p.1) + after@;
    let mut i: usize = 0;
    while i < v.len()
        invariant
            i <= v@.len(),
            start == texts(old(out)@),
            f == (|p: (Seq<char>, nat)| before@ + p.0 + between@ + decimal(p.1) + after@),
            texts(out@) == start + tallies(v@).take(i as int).map_values(f),
        decreases v@.len() - i,
    {
        let mut line = string_of(before);
        push_str(&mut line, v[i].0.as_str());
        push_str(&mut line, between);
        push_str(&mut line, crate::rows::decimal_string(v[i].1).as_str());
        push_str(&mut line, after);
        let ghost ob = texts(out@);
        out.push(line);
        proof {
            assert(tallies(v@).take(i + 1) =~= tallies(v@).take(i as int).push(tallies(v@)[i as int]));
            assert(texts(out@) =~= ob.push(line@));
            assert(line@ == f(tallies(v@)[i as int]));
            assert(texts(out@) =~= start + tallies(v@).take(i + 1).map_values(f));
        }
        i = i + 1;
    }
    proof {
        assert(tallies(v@).take(i as int) =~= tallies(v@));
    }
}

/// The lines of the statistics block.
pub fn stats_lines(s: &LinkStats) -> (r: Vec<String>)
    ensures
        texts(r@) == stats_text(*s),
{
    let mut r: Vec<String> = Vec::new();
    r.push(string_of("Suspect Link Statistics"));
    r.push(string_of(""));
    let mut l = string_of("Total suspect links:       ");
    push_str(&mut l, crate::rows::decimal_string(s.total).as_str());
    r.push(l);
    let mut l = string_of("Unique parents affected:   ");
    push_str(&mut l, crate::rows::decimal_string(s.unique_parents).as_str());
    r.push(l);
    let mut l = string_of("Unique children affected:  ");
    push_str(&mut l, crate::rows::decimal_string(s.unique_children).as_str());
    r.push(l);
    r.push(string_of(""));
    let ghost head = texts(r@);
    let ghost kinds = tallies(s.by_kind@);
    let ghost tops = tallies(s.top_parents@);
    let ghost kind_part: Seq<Seq<char>> = if kinds.len() > 0 {
        seq!["By child requirement kind:"@] + kinds.map_values(|p: (Seq<char>, nat)| kind_line(p)) + seq![""@]
    } else {
        Seq::empty()
    };
    let ghost top_part: Seq<Seq<char>> = if s.unique_parents > 1 {
        seq!["Most affected parents:"@] + tops.map_values(|p: (Seq<char>, nat)| parent_line(p))
    } else {
        Seq::empty()
    };
    proof {
        assert(head =~= seq![
            "Suspect Link Statistics"@,
            ""@,
            "Total suspect links:       "@ + decimal(s.total as nat),
            "Unique parents affected:   "@ + decimal(s.unique_parents as nat),
            "Unique children affected:  "@ + decimal(s.unique_children as nat),
            ""@
        ]);
    }
    if s.by_kind.len() > 0 {
        r.push(string_of("By child requirement kind:"));
        let ghost a = texts(r@);
        counted_lines(&s.by_kind, "  ", "  →  *     ", " links", &mut r);
        let ghost b = texts(r@);
        r.push(string_of(""));
        proof {
            assert(kinds.map_values(|p: (Seq<char>, nat)| kind_line(p)) =~= kinds.map_values(
                |p: (Seq<char>, nat)| "  "@ + p.0 + "  →  *     "@ + decimal(p.1) + " links"@));
            assert(texts(r@) =~= b.push(""@));
            assert(texts(r@) =~= head + kind_part);
        }
    } else {
        assert(texts(r@) =~= head + kind_part);
    }
    let ghost mid = texts(r@);
    if s.unique_parents > 1 {
        r.push(string_of("Most affected parents:"));
        counted_lines(&s.top_parents, "  ", "  (", " children)", &mut r);
        proof {
            assert(tops.map_values(|p: (Seq<char>, nat)| parent_line(p)) =~= tops.map_values(
                |p: (Seq<char>, nat)| "  "@ + p.0 + "  ("@ + decimal(p.1) + " children)"@));
            assert(texts(r@) =~= mid + top_part);
        }
    } else {
        assert(texts(r@) =~= mid + top_part);
    }
    proof {
        assert(texts(r@) =~= stats_text(*s));
    }
    r
}


// ---------------------------------------------------------------------------
// Lines of the listings
// ---------------------------------------------------------------------------

/// Appends `more` to `out`.
fn append_lines(out: &mut Vec<String>, more: Vec<String>)
    ensures
        texts(final(out)@) == texts(old(out)@) + texts(more@),
{
    let ghost start = texts(out@);
    let mut i: usize = 0;
    while i < more.len()
        invariant
            i <= more@.len(),
            start == texts(old(out)@),
            texts(out@) == start + texts(more@).take(i as int),
        decreases more@.len() - i,
    {
        let ghost ob = texts(out@);
        out.push(copy_string(&more[i]));
        proof {
            assert(texts(more@).take(i + 1) =~= texts(more@).take(i as int).push(more@[i as int]@));
            assert(texts(out@) =~= ob.push(more@[i as int]@));
        }
        i = i + 1;
    }
    proof {
        assert(texts(more@).take(i as int) =~= texts(more@));
    }
}

/// The displayed HRID of a link's child.
pub open spec fn child_text(l: SuspectLink, digits: nat) -> Seq<char> {
    spec_display(l.child_hrid@, digits)
}

/// The displayed HRID of a link's parent.
pub open spec fn parent_text(l: SuspectLink, digits: nat) -> Seq<char> {
    spec_display(l.parent_hrid@, digits)
}

/// `CHILD PARENT` for each link: the quiet output.
pub open spec fn quiet_text(links: Seq<SuspectLink>, digits: nat) -> Seq<Seq<char>> {
    links.map_values(|l: SuspectLink| child_text(l, digits) + " "@ + parent_text(l, digits))
}

/// The quiet output: one `CHILD PARENT` line per link.
pub fn quiet_lines(links: &[SuspectLink], digits: usize) -> (r: Vec<String>)
    ensures
        texts(r@) == quiet_text(links@, digits as nat),
{
    let mut r: Vec<String> = Vec::new();
    let mut i: usize = 0;
    while i < links.len()
        invariant
            i <= links@.len(),
            r@.len() == i,
            forall|j: int| 0 <= j < i ==> #[trigger] r@[j]@ == child_text(links@[j], digits as nat) + " "@ + parent_text(links@[j], digits as nat),
        decreases links@.len() - i,
    {
        let mut l = links[i].child_hrid.to_string_with_digits(digits);
        push_str(&mut l, " ");
        push_str(&mut l, links[i].parent_hrid.to_string_with_digits(digits).as_str());
        r.push(l);
        i = i + 1;
    }
    assert(texts(r@) =~= quiet_text(links@, digits as nat));
    r
}

/// A text left-aligned in a field of twelve characters.
pub open spec fn pad12(s: Seq<char>) -> Seq<char> {
    s + spaces(crate::render::gap(12, s.len() as int))
}

fn pad12_of(s: &str) -> (r: String)
    ensures
        r@ == pad12(s@),
{
    let n = crate::text::chars_of(s).len();
    let mut r = string_of(s);
    let pad: usize = if n < 12 { 12 - n } else { 0 };
    crate::render::push_repeated(&mut r, ' ', pad);
    proof {
        assert(Seq::new(pad as nat, |_i: int| ' ') =~= spaces(crate::render::gap(12, s@.len() as int)));
    }
    r
}

/// A line of `n` copies of `c`.
pub open spec fn rule_of(c: char, n: nat) -> Seq<char> {
    Seq::new(n, |_i: int| c)
}

fn rule_string(c: char, n: usize) -> (r: String)
    ensures
        r@ == rule_of(c, n as nat),
{
    let mut r = String::new();
    crate::render::push_repeated(&mut r, c, n);
    assert(r@ =~= rule_of(c, n as nat));
    r
}

/// The title of the requirement with HRID `h`, or `(no title)`.
pub open spec fn title_or_none(t: Tree, h: SpecHrid) -> Seq<char> {
    match title_for(t, h) {
        Some(x) => x,
        None => "(no title)"@,
    }
}

/// One row of the suspect-link table.
pub open spec fn table_row(t: Tree, l: SuspectLink, digits: nat) -> Seq<char> {
    pad12(child_text(l, digits)) + " → "@ + pad12(parent_text(l, digits)) + "     "@ + title_or_none(t, l.child_hrid@)
        + " → "@ + title_or_none(t, l.parent_hrid@)
}

/// The lines of the table output.
pub open spec fn table_text(t: Tree, links: Seq<SuspectLink>, digits: nat) -> Seq<Seq<char>> {
    seq![
        "Suspect Links Found: "@ + decimal(links.len()),
        ""@,
        pad12("CHILD"@) + " → "@ + pad12("PARENT"@) + "     TITLE (CHILD → PARENT)"@,
        rule_of('─', 70)
    ] + links.map_values(|l: SuspectLink| table_row(t, l, digits)) + seq![
        ""@,
        "Run 'req review --detail' for paths and fingerprints"@,
        "Run 'req review --accept --all --yes' to accept all changes"@
    ]
}

fn title_or_none_of(dir: &Directory, h: &Hrid) -> (r: String)
    requires
        dir.wf(),
    ensures
        r@ == title_or_none(dir.tree_view(), h@),
{
    match requirement_title(dir, h) {
        Some(t) => t,
        None => string_of("(no title)"),
    }
}

/// The table output: a heading, one row per link with both titles, and
/// hints.
pub fn table_lines(dir: &Directory, links: &[SuspectLink], digits: usize) -> (r: Vec<String>)
    requires
        dir.wf(),
    ensures
        texts(r@) == table_text(dir.tree_view(), links@, digits as nat),
{
    let ghost t = dir.tree_view();
    let ghost d = digits as nat;
    let mut r: Vec<String> = Vec::new();
    let mut l = string_of("Suspect Links Found: ");
    push_str(&mut l, crate::rows::decimal_string(links.len()).as_str());
    r.push(l);
    r.push(string_of(""));
    let mut l = pad12_of("CHILD");
    push_str(&mut l, " → ");
    push_str(&mut l, pad12_of("PARENT").as_str());
    push_str(&mut l, "     TITLE (CHILD → PARENT)");
    r.push(l);
    r.push(rule_string('─', 70));
    let ghost head = texts(r@);
    proof {
        assert(head =~= seq![
            "Suspect Links Found: "@ + decimal(links@.len()),
            ""@,
            pad12("CHILD"@) + " → "@ + pad12("PARENT"@) + "     TITLE (CHILD → PARENT)"@,
            rule_of('─', 70)
        ]);
    }
    let mut i: usize = 0;
    while i < links.len()
        invariant
            dir.wf(),
            t == dir.tree_view(),
            d == digits as nat,
            i <= links@.len(),
            texts(r@) == head + links@.take(i as int).map_values(|l: SuspectLink| table_row(t, l, d)),
        decreases links@.len() - i,
    {
        let link = &links[i];
        let mut l = pad12_of(link.child_hrid.to_string_with_digits(digits).as_str());
        push_str(&mut l, " → ");
        push_str(&mut l, pad12_of(link.parent_hrid.to_string_with_digits(digits).as_str()).as_str());
        push_str(&mut l, "     ");
        push_str(&mut l, title_or_none_of(dir, &link.child_hrid).as_str());
        push_str(&mut l, " → ");
        push_str(&mut l, title_or_none_of(dir, &link.parent_hrid).as_str());
        let ghost rb = texts(r@);
        r.push(l);
        proof {
            assert(links@.take(i + 1) =~= links@.take(i as int).push(links@[i as int]));
            assert(l@ == table_row(t, links@[i as int], d));
            assert(texts(r@) =~= rb.push(l@));
            assert(texts(r@) =~= head + links@.take(i + 1).map_values(|l: SuspectLink| table_row(t, l, d)));
        }
        i = i + 1;
    }
    proof {
        assert(links@.take(i as int) =~= links@);
    }
    let ghost body = texts(r@);
    r.push(string_of(""));
    r.push(string_of("Run 'req review --detail' for paths and fingerprints"));
    r.push(string_of("Run 'req review --accept --all --yes' to accept all changes"));
    proof {
        assert(texts(r@) =~= body + seq![
            ""@,
            "Run 'req review --detail' for paths and fingerprints"@,
            "Run 'req review --accept --all --yes' to accept all changes"@
        ]);
        assert(texts(r@) =~= table_text(t, links@, d));
    }
    r
}

/// The block of the detailed output for the link at `i` of `n`.
pub open spec fn detail_block(dir: &Directory, root: Seq<char>, l: SuspectLink, i: nat, n: nat, digits: nat) -> Seq<Seq<char>> {
    let t = dir.tree_view();
    let c = child_text(l, digits);
    let p = parent_text(l, digits);
    (if i > 0 { seq![""@] } else { Seq::empty() }) + seq![
        rule_of('━', 70),
        "Suspect Link #"@ + decimal(i + 1) + " of "@ + decimal(n),
        ""@,
        "  CHILD:   "@ + c + "  "@ + title_or_empty(t, l.child_hrid@),
        "           Path:     "@ + display_path(root, file_for(dir, l.child_hrid@)),
        ""@,
        "  PARENT:  "@ + p + "  "@ + title_or_empty(t, l.parent_hrid@),
        "           Path:     "@ + display_path(root, file_for(dir, l.parent_hrid@)),
        ""@,
        "  REASON:  Parent content changed (fingerprint drift)"@,
        ""@,
        "  STORED:  "@ + l.stored_fingerprint@,
        "  CURRENT: "@ + l.current_fingerprint@,
        ""@,
        "  ACTIONS:"@,
        "    req review --accept --child "@ + c + " --parent "@ + p,
        rule_of('━', 70)
    ]
}

/// The blocks of the first `k` links.
pub open spec fn detail_upto(dir: &Directory, root: Seq<char>, links: Seq<SuspectLink>, k: nat, digits: nat) -> Seq<Seq<char>>
    decreases k,
{
    if k == 0 {
        Seq::empty()
    } else {
        detail_upto(dir, root, links, (k - 1) as nat, digits) + detail_block(dir, root, links[k - 1], (k - 1) as nat, links.len(), digits)
    }
}

fn detail_block_lines(dir: &Directory, root: &str, l: &SuspectLink, i: usize, n: usize, digits: usize) -> (r: Vec<String>)
    requires
        dir.wf(),
        i < n,
    ensures
        texts(r@) == detail_block(dir, root@, *l, i as nat, n as nat, digits as nat),
{
    let c = l.child_hrid.to_string_with_digits(digits);
    let p = l.parent_hrid.to_string_with_digits(digits);
    let mut r: Vec<String> = Vec::new();
    if i > 0 {
        r.push(string_of(""));
    }
    let ghost lead = texts(r@);
    r.push(rule_string('━', 70));
    let mut x = string_of("Suspect Link #");
    push_str(&mut x, crate::rows::decimal_string(i + 1).as_str());
    push_str(&mut x, " of ");
    push_str(&mut x, crate::rows::decimal_string(n).as_str());
    r.push(x);
    r.push(string_of(""));
    let mut x = string_of("  CHILD:   ");
    push_str(&mut x, c.as_str());
    push_str(&mut x, "  ");
    push_str(&mut x, title_or_empty_of(dir, &l.child_hrid).as_str());
    r.push(x);
    let mut x = string_of("           Path:     ");
    push_str(&mut x, link_path(dir, root, &l.child_hrid).as_str());
    r.push(x);
    r.push(string_of(""));
    let mut x = string_of("  PARENT:  ");
    push_str(&mut x, p.as_str());
    push_str(&mut x, "  ");
    push_str(&mut x, title_or_empty_of(dir, &l.parent_hrid).as_str());
    r.push(x);
    let mut x = string_of("           Path:     ");
    push_str(&mut x, link_path(dir, root, &l.parent_hrid).as_str());
    r.push(x);
    r.push(string_of(""));
    r.push(string_of("  REASON:  Parent content changed (fingerprint drift)"));
    r.push(string_of(""));
    let mut x = string_of("  STORED:  ");
    push_str(&mut x, l.stored_fingerprint.as_str());
    r.push(x);
    let mut x = string_of("  CURRENT: ");
    push_str(&mut x, l.current_fingerprint.as_str());
    r.push(x);
    r.push(string_of(""));
    r.push(string_of("  ACTIONS:"));
    let mut x = string_of("    req review --accept --child ");
    push_str(&mut x, c.as_str());
    push_str(&mut x, " --parent ");
    push_str(&mut x, p.as_str());
    r.push(x);
    r.push(rule_string('━', 70));
    proof {
        assert(lead =~= (if i > 0 { seq![""@] } else { Seq::<Seq<char>>::empty() }));
        assert(texts(r@) =~= detail_block(dir, root@, *l, i as nat, n as nat, digits as nat));
    }
    r
}

/// The detailed output: for each link its HRIDs, titles, files,
/// fingerprints and the command that accepts it.
pub fn detail_lines(dir: &Directory, root: &str, links: &[SuspectLink], digits: usize) -> (r: Vec<String>)
    requires
        dir.wf(),
    ensures
        texts(r@) == detail_upto(dir, root@, links@, links@.len(), digits as nat),
{
    let mut r: Vec<String> = Vec::new();
    let mut i: usize = 0;
    while i < links.len()
        invariant
            dir.wf(),
            i <= links@.len(),
            texts(r@) == detail_upto(dir, root@, links@, i as nat, digits as nat),
        decreases links@.len() - i,
    {
        let block = detail_block_lines(dir, root, &links[i], i, links.len(), digits);
        append_lines(&mut r, block);
        i = i + 1;
    }
    r
}


/// The positions of the links with the key `k` among the first `n`.
pub open spec fn group_idx(links: Seq<SuspectLink>, by_parent: bool, digits: nat, k: Seq<char>, n: int) -> Seq<int>
    decreases n,
{
    if n <= 0 {
        Seq::empty()
    } else {
        let prev = group_idx(links, by_parent, digits, k, n - 1);
        if link_key(links[n - 1], by_parent, digits) == k {
            prev.push(n - 1)
        } else {
            prev
        }
    }
}

/// The HRID a group is headed by, and the other end of each link.
pub open spec fn head_hrid(l: SuspectLink, by_parent: bool) -> SpecHrid {
    if by_parent { l.parent_hrid@ } else { l.child_hrid@ }
}

pub open spec fn other_hrid(l: SuspectLink, by_parent: bool) -> SpecHrid {
    if by_parent { l.child_hrid@ } else { l.parent_hrid@ }
}

/// The line of a group member: the tree prefix, the other end and its title.
pub open spec fn member_line(t: Tree, l: SuspectLink, by_parent: bool, digits: nat, last: bool) -> Seq<char> {
    (if last { "└─"@ } else { "├─"@ }) + "  "@ + spec_display(other_hrid(l, by_parent), digits) + "  "@
        + title_or_empty(t, other_hrid(l, by_parent))
}

/// The lines of the group with the key `k`.
pub open spec fn group_block(t: Tree, links: Seq<SuspectLink>, by_parent: bool, digits: nat, k: Seq<char>) -> Seq<Seq<char>> {
    let g = group_idx(links, by_parent, digits, k, links.len() as int);
    seq![k + " ("@ + title_or_empty(t, head_hrid(links[g[0]], by_parent)) + ")"@]
        + Seq::new(g.len(), |j: int| member_line(t, links[g[j]], by_parent, digits, j == g.len() - 1))
        + seq![""@]
}

/// The blocks of the first `n` keys.
pub open spec fn groups_upto(t: Tree, links: Seq<SuspectLink>, by_parent: bool, digits: nat, keys: Seq<Seq<char>>, n: nat) -> Seq<Seq<char>>
    decreases n,
{
    if n == 0 {
        Seq::empty()
    } else {
        groups_upto(t, links, by_parent, digits, keys, (n - 1) as nat) + group_block(t, links, by_parent, digits, keys[n - 1])
    }
}

/// The grouped output over the given (sorted, distinct) keys.
pub open spec fn grouped_text(t: Tree, links: Seq<SuspectLink>, by_parent: bool, digits: nat, keys: Seq<Seq<char>>) -> Seq<Seq<char>> {
    let title = if by_parent {
        "Suspect Links by Parent ("@ + decimal(keys.len()) + " parents, "@
    } else {
        "Suspect Links by Child ("@ + decimal(keys.len()) + " children, "@
    };
    seq![title + decimal(links.len()) + " links total)"@, ""@] + groups_upto(t, links, by_parent, digits, keys, keys.len())
}

fn group_positions(links: &[SuspectLink], keys: &Vec<String>, k: &str) -> (r: Vec<usize>)
    requires
        keys@.len() == links@.len(),
    ensures
        r@.map_values(|x: usize| x as int) == group_idx_of(texts(keys@), k@, links@.len() as int),
        forall|j: int| 0 <= j < r@.len() ==> r@[j] < links@.len(),
        texts(keys@).contains(k@) ==> r@.len() > 0,
{
    let mut r: Vec<usize> = Vec::new();
    let mut i: usize = 0;
    while i < links.len()
        invariant
            keys@.len() == links@.len(),
            i <= links@.len(),
            r@.map_values(|x: usize| x as int) == group_idx_of(texts(keys@), k@, i as int),
            forall|j: int| 0 <= j < r@.len() ==> r@[j] < i,
            (exists|j: int| 0 <= j < i && texts(keys@)[j] == k@) ==> r@.len() > 0,
        decreases links@.len() - i,
    {
        let ghost rb = r@;
        if str_eq(keys[i].as_str(), k) {
            r.push(i);
            proof {
                assert(r@.map_values(|x: usize| x as int) =~= rb.map_values(|x: usize| x as int).push(i as int));
            }
        }
        proof {
            assert(texts(keys@)[i as int] == keys@[i as int]@);
            if exists|j: int| 0 <= j < i + 1 && texts(keys@)[j] == k@ {
                let j = choose|j: int| 0 <= j < i + 1 && texts(keys@)[j] == k@;
                if j < i {
                    assert(exists|j: int| 0 <= j < i && texts(keys@)[j] == k@);
                }
            }
        }
        i = i + 1;
    }
    r
}

/// The positions of `k` among the first `n` keys.
pub open spec fn group_idx_of(keys: Seq<Seq<char>>, k: Seq<char>, n: int) -> Seq<int>
    decreases n,
{
    if n <= 0 {
        Seq::empty()
    } else {
        let prev = group_idx_of(keys, k, n - 1);
        if keys[n - 1] == k {
            prev.push(n - 1)
        } else {
            prev
        }
    }
}

proof fn lemma_group_idx(links: Seq<SuspectLink>, by_parent: bool, digits: nat, k: Seq<char>, n: int)
    requires
        0 <= n <= links.len(),
    ensures
        group_idx(links, by_parent, digits, k, n) == group_idx_of(link_keys(links, by_parent, digits), k, n),
    decreases n,
{
    if n > 0 {
        lemma_group_idx(links, by_parent, digits, k, n - 1);
    }
}

fn group_block_lines(dir: &Directory, links: &[SuspectLink], keys: &Vec<String>, by_parent: bool, digits: usize, k: &String) -> (r: Vec<String>)
    requires
        dir.wf(),
        texts(keys@) == link_keys(links@, by_parent, digits as nat),
        texts(keys@).contains(k@),
    ensures
        texts(r@) == group_block(dir.tree_view(), links@, by_parent, digits as nat, k@),
{
    let ghost t = dir.tree_view();
    let ghost d = digits as nat;
    let pos = group_positions(links, keys, k.as_str());
    let ghost g = group_idx(links@, by_parent, d, k@, links@.len() as int);
    proof {
        lemma_group_idx(links@, by_parent, d, k@, links@.len() as int);
        assert(g.len() == pos@.len());
        assert forall|j: int| 0 <= j < pos@.len() implies g[j] == pos@[j] as int by {
            assert(pos@.map_values(|x: usize| x as int)[j] == pos@[j] as int);
        }
    }
    let first = &links[pos[0]];
    let head = if by_parent { &first.parent_hrid } else { &first.child_hrid };
    let mut r: Vec<String> = Vec::new();
    let mut x = copy_string(k);
    push_str(&mut x, " (");
    push_str(&mut x, title_or_empty_of(dir, head).as_str());
    push_str(&mut x, ")");
    r.push(x);
    let mut j: usize = 0;
    while j < pos.len()
        invariant
            dir.wf(),
            t == dir.tree_view(),
            d == digits as nat,
            g.len() == pos@.len(),
            forall|a: int| 0 <= a < pos@.len() ==> g[a] == pos@[a] as int,
            forall|a: int| 0 <= a < pos@.len() ==> pos@[a] < links@.len(),
            j <= pos@.len(),
            r@.len() == j + 1,
            r@[0]@ == k@ + " ("@ + title_or_empty(t, head_hrid(links@[g[0]], by_parent)) + ")"@,
            forall|a: int| 0 <= a < j ==> #[trigger] r@[a + 1]@ == member_line(t, links@[g[a]], by_parent, d, a == g.len() - 1),
        decreases pos@.len() - j,
    {
        let l = &links[pos[j]];
        let other = if by_parent { &l.child_hrid } else { &l.parent_hrid };
        let mut x = if j + 1 == pos.len() { string_of("└─") } else { string_of("├─") };
        push_str(&mut x, "  ");
        push_str(&mut x, other.to_string_with_digits(digits).as_str());
        push_str(&mut x, "  ");
        push_str(&mut x, title_or_empty_of(dir, other).as_str());
        let ghost rb = r@;
        r.push(x);
        proof {
            assert forall|a: int| 0 <= a < j + 1 implies #[trigger] r@[a + 1]@ == member_line(t, links@[g[a]], by_parent, d, a == g.len() - 1) by {
                if a < j {
                    assert(r@[a + 1] == rb[a + 1]);
                }
            }
        }
        j = j + 1;
    }
    r.push(string_of(""));
    proof {
        let members = Seq::new(g.len(), |a: int| member_line(t, links@[g[a]], by_parent, d, a == g.len() - 1));
        assert forall|a: int| 0 <= a < members.len() implies texts(r@)[a + 1] == members[a] by {
            assert(texts(r@)[a + 1] == r@[a + 1]@);
        }
        assert(texts(r@) =~= group_block(t, links@, by_parent, d, k@));
    }
    r
}

/// The output grouped by parent (or by child): one block per distinct
/// HRID, in increasing order, listing the other end of each of its links.
pub fn grouped_lines(dir: &Directory, links: &[SuspectLink], by_parent: bool, digits: usize) -> (r: Vec<String>)
    requires
        dir.wf(),
    ensures
        exists|keys: Seq<Seq<char>>|
            ascending(keys) && keys.to_set() == link_keys(links@, by_parent, digits as nat).to_set()
                && texts(r@) == #[trigger] grouped_text(dir.tree_view(), links@, by_parent, digits as nat, keys),
{
    let ghost t = dir.tree_view();
    let ghost d = digits as nat;
    let all = key_strings(links, by_parent, digits);
    let keys = distinct_sorted(&all);
    let ghost ks = texts(keys@);
    let mut x = if by_parent { string_of("Suspect Links by Parent (") } else { string_of("Suspect Links by Child (") };
    push_str(&mut x, crate::rows::decimal_string(keys.len()).as_str());
    push_str(&mut x, if by_parent { " parents, " } else { " children, " });
    push_str(&mut x, crate::rows::decimal_string(links.len()).as_str());
    push_str(&mut x, " links total)");
    let mut r: Vec<String> = Vec::new();
    r.push(x);
    r.push(string_of(""));
    let ghost head = texts(r@);
    let mut i: usize = 0;
    while i < keys.len()
        invariant
            dir.wf(),
            t == dir.tree_view(),
            d == digits as nat,
            ks == texts(keys@),
            texts(all@) == link_keys(links@, by_parent, d),
            ks.to_set() == texts(all@).to_set(),
            i <= keys@.len(),
            texts(r@) == head + groups_upto(t, links@, by_parent, d, ks, i as nat),
        decreases keys@.len() - i,
    {
        proof {
            assert(ks[i as int] == keys@[i as int]@);
            assert(ks.to_set().contains(ks[i as int]));
            assert(texts(all@).to_set().contains(keys@[i as int]@));
        }
        let block = group_block_lines(dir, links, &all, by_parent, digits, &keys[i]);
        append_lines(&mut r, block);
        proof {
            assert(texts(r@) =~= head + groups_upto(t, links@, by_parent, d, ks, (i + 1) as nat));
        }
        i = i + 1;
    }
    proof {
        assert(texts(r@) =~= grouped_text(t, links@, by_parent, d, ks));
    }
    r
}


/// The preview shown before accepting every selected link: how many links
/// and how many distinct children, then one `CHILD ← PARENT` line each.
pub open spec fn accept_preview_text(links: Seq<SuspectLink>, digits: nat) -> Seq<Seq<char>> {
    seq![
        "Will accept "@ + decimal(links.len()) + " suspect links across "@
            + decimal(link_keys(links, false, digits).to_set().len()) + " files:"@
    ] + links.map_values(|l: SuspectLink| "  "@ + child_text(l, digits) + " ← "@ + parent_text(l, digits))
}

/// The lines of the preview shown before accepting every selected link.
pub fn accept_preview_lines(links: &[SuspectLink], digits: usize) -> (r: Vec<String>)
    ensures
        texts(r@) == accept_preview_text(links@, digits as nat),
{
    let children = key_strings(links, false, digits);
    let files = distinct_count(&children);
    let mut x = string_of("Will accept ");
    push_str(&mut x, crate::rows::decimal_string(links.len()).as_str());
    push_str(&mut x, " suspect links across ");
    push_str(&mut x, crate::rows::decimal_string(files).as_str());
    push_str(&mut x, " files:");
    let mut r: Vec<String> = Vec::new();
    r.push(x);
    let mut i: usize = 0;
    while i < links.len()
        invariant
            i <= links@.len(),
            r@.len() == i + 1,
            r@[0]@ == "Will accept "@ + decimal(links@.len()) + " suspect links across "@
                + decimal(link_keys(links@, false, digits as nat).to_set().len()) + " files:"@,
            forall|j: int| 0 <= j < i ==> #[trigger] r@[j + 1]@ == "  "@ + child_text(links@[j], digits as nat) + " ← "@
                + parent_text(links@[j], digits as nat),
        decreases links@.len() - i,
    {
        let mut l = string_of("  ");
        push_str(&mut l, links[i].child_hrid.to_string_with_digits(digits).as_str());
        push_str(&mut l, " ← ");
        push_str(&mut l, links[i].parent_hrid.to_string_with_digits(digits).as_str());
        let ghost rb = r@;
        r.push(l);
        proof {
            assert forall|j: int| 0 <= j < i + 1 implies #[trigger] r@[j + 1]@ == "  "@ + child_text(links@[j], digits as nat) + " ← "@
                + parent_text(links@[j], digits as nat) by {
                if j < i {
                    assert(r@[j + 1] == rb[j + 1]);
                }
            }
        }
        i = i + 1;
    }
    proof {
        let want = accept_preview_text(links@, digits as nat);
        assert forall|j: int| 0 <= j < want.len() implies texts(r@)[j] == want[j] by {
            assert(texts(r@)[j] == r@[j]@);
            if j > 0 {
                assert(r@[(j - 1) + 1]@ == "  "@ + child_text(links@[j - 1], digits as nat) + " ← "@ + parent_text(links@[j - 1], digits as nat));
            }
        }
        assert(texts(r@) =~= want);
    }
    r
}


/// One end of a link as the JSON output describes it.
pub struct LinkEnd {
    pub hrid: String,
    pub title: Option<String>,
    pub path: String,
    pub kind: String,
}

/// A suspect link as the JSON and NDJSON outputs describe it.
pub struct LinkRecord {
    pub child: LinkEnd,
    pub parent: LinkEnd,
    pub status: String,
    pub stored_fingerprint: String,
    pub current_fingerprint: String,
}

/// `e` describes the requirement with HRID `h`.
pub open spec fn describes(e: LinkEnd, dir: &Directory, root: Seq<char>, h: SpecHrid, digits: nat) -> bool {
    &&& e.hrid@ == spec_display(h, digits)
    &&& opt_str(e.title) == title_for(dir.tree_view(), h)
    &&& e.path@ == display_path(root, file_for(dir, h))
    &&& e.kind@ == h.kind
}

fn link_end(dir: &Directory, root: &str, h: &Hrid, digits: usize) -> (r: LinkEnd)
    requires
        dir.wf(),
    ensures
        describes(r, dir, root@, h@, digits as nat),
{
    LinkEnd {
        hrid: h.to_string_with_digits(digits),
        title: requirement_title(dir, h),
        path: link_path(dir, root, h),
        kind: string_of(h.kind()),
    }
}

/// The record of a suspect link for the JSON outputs: both ends with their
/// titles, files and kinds, the status and both fingerprints.
pub fn link_record(dir: &Directory, root: &str, l: &SuspectLink, digits: usize) -> (r: LinkRecord)
    requires
        dir.wf(),
    ensures
        describes(r.child, dir, root@, l.child_hrid@, digits as nat),
        describes(r.parent, dir, root@, l.parent_hrid@, digits as nat),
        r.status@ == "fingerprint drift"@,
        r.stored_fingerprint@ == l.stored_fingerprint@,
        r.current_fingerprint@ == l.current_fingerprint@,
{
    LinkRecord {
        child: link_end(dir, root, &l.child_hrid, digits),
        parent: link_end(dir, root, &l.parent_hrid, digits),
        status: string_of("fingerprint drift"),
        stored_fingerprint: copy_string(&l.stored_fingerprint),
        current_fingerprint: copy_string(&l.current_fingerprint),
    }
}

} // verus!
