//! The stages of a listing: snapshots of the requirements, the filters
//! given on the command line, and the rows each relationship view yields.

use vstd::prelude::*;

use crate::config::texts;
use crate::directory::Directory;
use crate::hrid::{Hrid, SpecHrid, spec_display};
use crate::listing::{ascii_lower, ascii_lower_chars, resolve_depth, Direction, ListingView, Row, SortField};
use crate::requirement::{tags_view, Timestamp};
use crate::summary::{find_first, occurs_from, lemma_first_from_unique};
use crate::text::{
    chars_of, copy_string, join, push_str, str_eq, str_lt, string_from_chars, string_of, text_lt, lemma_text_lt_asym,
    lemma_text_lt_irrefl, lemma_text_lt_total, lemma_text_lt_trans,
};
use crate::tree::RequirementView;

verus! {

// ---------------------------------------------------------------------------
// Entries
// ---------------------------------------------------------------------------

/// A reference from an entry to a related requirement.
#[derive(Debug)]
pub struct LinkRef {
    pub uuid: u128,
    pub hrid: Hrid,
}

/// A snapshot of one requirement as the listing shows it.
#[derive(Debug)]
pub struct ListEntry {
    pub uuid: u128,
    pub hrid: Hrid,
    pub title: Option<String>,
    pub tags: Vec<String>,
    pub created: Timestamp,
    /// The heading and body as markdown.
    pub content: String,
    pub parents: Vec<LinkRef>,
    pub children: Vec<LinkRef>,
    /// The file, as displayed.
    pub path: String,
}

/// The UUIDs of a list of references.
pub open spec fn ref_uuids(v: Seq<LinkRef>) -> Seq<u128> {
    v.map_values(|l: LinkRef| l.uuid)
}

/// The position of the last entry with UUID `u`, as a map from UUIDs to
/// positions built in order keeps it.
pub open spec fn position_of(entries: Seq<ListEntry>, u: u128) -> Option<int>
    decreases entries.len(),
{
    if entries.len() == 0 {
        None
    } else if entries.last().uuid == u {
        Some(entries.len() - 1)
    } else {
        position_of(entries.drop_last(), u)
    }
}

proof fn lemma_position_of(entries: Seq<ListEntry>, u: u128)
    ensures
        position_of(entries, u) matches Some(i) ==> 0 <= i < entries.len() && entries[i].uuid == u
            && forall|j: int| i < j < entries.len() ==> #[trigger] entries[j].uuid != u,
        position_of(entries, u) is None ==> forall|j: int| 0 <= j < entries.len() ==> #[trigger] entries[j].uuid != u,
    decreases entries.len(),
{
    if entries.len() > 0 && entries.last().uuid != u {
        let d = entries.drop_last();
        lemma_position_of(d, u);
        assert forall|j: int| 0 <= j < entries.len() - 1 implies entries[j] == #[trigger] d[j] by {}
        match position_of(d, u) {
            Some(i) => {
                assert forall|j: int| i < j < entries.len() implies #[trigger] entries[j].uuid != u by {
                    if j < entries.len() - 1 {
                        assert(entries[j] == d[j]);
                    }
                }
            },
            None => {
                assert forall|j: int| 0 <= j < entries.len() implies #[trigger] entries[j].uuid != u by {
                    if j < entries.len() - 1 {
                        assert(entries[j] == d[j]);
                    }
                }
            },
        }
    }
}

/// Where the entry with UUID `u` stands (the last one, if several do).
pub fn find_position(entries: &[ListEntry], u: u128) -> (r: Option<usize>)
    ensures
        r matches Some(i) ==> position_of(entries@, u) == Some(i as int),
        r is None ==> position_of(entries@, u) is None,
{
    let mut k: usize = entries.len();
    proof {
        assert(entries@.take(k as int) =~= entries@);
    }
    while k > 0
        invariant
            k <= entries@.len(),
            position_of(entries@, u) == position_of(entries@.take(k as int), u),
        decreases k,
    {
        proof {
            assert(entries@.take(k as int).drop_last() =~= entries@.take(k - 1));
        }
        if entries[k - 1].uuid == u {
            return Some(k - 1);
        }
        k = k - 1;
    }
    None
}

/// The entry's related requirement UUIDs for a direction (none for
/// `Neutral`).
pub open spec fn related(e: ListEntry, d: Direction) -> Seq<u128> {
    match d {
        Direction::Up => ref_uuids(e.parents@),
        Direction::Down => ref_uuids(e.children@),
        Direction::Neutral => Seq::empty(),
    }
}

/// A reference as a value.
pub open spec fn ref_view(l: LinkRef) -> (u128, SpecHrid) {
    (l.uuid, l.hrid@)
}

/// References as values.
pub open spec fn refs_view(v: Seq<LinkRef>) -> Seq<(u128, SpecHrid)> {
    v.map_values(|l: LinkRef| ref_view(l))
}

/// One reference to `c` for each of the parent links in `parents` that
/// resolves to entry `p`.
pub open spec fn links_to(entries: Seq<ListEntry>, c: (u128, SpecHrid), parents: Seq<u128>, p: int) -> Seq<(u128, SpecHrid)>
    decreases parents.len(),
{
    if parents.len() == 0 {
        Seq::empty()
    } else {
        links_to(entries, c, parents.drop_last(), p) + if position_of(entries, parents.last()) == Some(p) {
            seq![c]
        } else {
            Seq::empty()
        }
    }
}

/// References to the entries before `n` that list a parent resolving to
/// entry `p`, once per such link, in order.
pub open spec fn children_found(entries: Seq<ListEntry>, p: int, n: int) -> Seq<(u128, SpecHrid)>
    decreases n,
{
    if n <= 0 {
        Seq::empty()
    } else {
        let c = entries[n - 1];
        children_found(entries, p, n - 1) + links_to(entries, (c.uuid, c.hrid@), ref_uuids(c.parents@), p)
    }
}

/// `b` is `a` with `extra` references appended to its children.
pub open spec fn same_but_children(a: ListEntry, b: ListEntry, extra: Seq<(u128, SpecHrid)>) -> bool {
    &&& b.uuid == a.uuid
    &&& b.hrid@ == a.hrid@
    &&& opt_text(b.title) == opt_text(a.title)
    &&& tags_view(b.tags@) == tags_view(a.tags@)
    &&& b.created == a.created
    &&& b.content@ == a.content@
    &&& refs_view(b.parents@) == refs_view(a.parents@)
    &&& refs_view(b.children@) == refs_view(a.children@) + extra
    &&& b.path@ == a.path@
}

/// An optional text as a value.
pub open spec fn opt_text(t: Option<String>) -> Option<Seq<char>> {
    match t {
        Some(s) => Some(s@),
        None => None,
    }
}

fn copy_ref(l: &LinkRef) -> (r: LinkRef)
    ensures
        ref_view(r) == ref_view(*l),
{
    LinkRef { uuid: l.uuid, hrid: l.hrid.clone() }
}

fn copy_refs(v: &Vec<LinkRef>) -> (r: Vec<LinkRef>)
    ensures
        refs_view(r@) == refs_view(v@),
{
    let mut r: Vec<LinkRef> = Vec::new();
    let mut i: usize = 0;
    while i < v.len()
        invariant
            i <= v@.len(),
            refs_view(r@) == refs_view(v@.take(i as int)),
        decreases v@.len() - i,
    {
        let ghost before = r@;
        r.push(copy_ref(&v[i]));
        proof {
            assert(v@.take(i + 1) =~= v@.take(i as int).push(v@[i as int]));
            assert(refs_view(r@) =~= refs_view(before).push(ref_view(v@[i as int])));
            assert(refs_view(v@.take(i + 1)) =~= refs_view(v@.take(i as int)).push(ref_view(v@[i as int])));
        }
        i = i + 1;
    }
    proof {
        assert(v@.take(i as int) =~= v@);
    }
    r
}

fn copy_opt_string(t: &Option<String>) -> (r: Option<String>)
    ensures
        opt_text(r) == opt_text(*t),
{
    match t {
        Some(s) => Some(copy_string(s)),
        None => None,
    }
}

/// Records every entry as a child of each of its parents found among the
/// entries (the last entry with the parent's UUID), in entry order.
pub fn link_children(entries: Vec<ListEntry>) -> (r: Vec<ListEntry>)
    ensures
        r@.len() == entries@.len(),
        forall|p: int| 0 <= p < r@.len() ==> same_but_children(
            entries@[p],
            #[trigger] r@[p],
            children_found(entries@, p, entries@.len() as int),
        ),
{
    let n = entries.len();
    let mut extra: Vec<Vec<LinkRef>> = Vec::new();
    let mut k: usize = 0;
    while k < n
        invariant
            k <= n,
            n == entries@.len(),
            extra@.len() == k,
            forall|p: int| 0 <= p < k ==> refs_view(#[trigger] extra@[p]@) == Seq::<(u128, SpecHrid)>::empty(),
        decreases n - k,
    {
        extra.push(Vec::new());
        proof {
            assert(refs_view(extra@[k as int]@) =~= Seq::<(u128, SpecHrid)>::empty());
        }
        k = k + 1;
    }
    let mut idx: usize = 0;
    while idx < n
        invariant
            idx <= n,
            n == entries@.len(),
            extra@.len() == n,
            forall|p: int| 0 <= p < n ==> refs_view(#[trigger] extra@[p]@) == children_found(entries@, p, idx as int),
        decreases n - idx,
    {
        let c = &entries[idx];
        let ghost cv = (c.uuid, c.hrid@);
        let ghost pu = ref_uuids(c.parents@);
        let mut j: usize = 0;
        while j < c.parents.len()
            invariant
                idx < n,
                n == entries@.len(),
                c == entries@[idx as int],
                cv == (c.uuid, c.hrid@),
                pu == ref_uuids(c.parents@),
                j <= c.parents@.len(),
                extra@.len() == n,
                forall|p: int| 0 <= p < n ==> refs_view(#[trigger] extra@[p]@) == children_found(entries@, p, idx as int)
                    + links_to(entries@, cv, pu.take(j as int), p),
            decreases c.parents@.len() - j,
        {
            let ghost before = extra@;
            proof {
                assert(pu.take(j + 1).drop_last() =~= pu.take(j as int));
                assert(pu.take(j + 1).last() == c.parents@[j as int].uuid);
            }
            match find_position(entries.as_slice(), c.parents[j].uuid) {
                Some(p) => {
                    proof {
                        lemma_position_of(entries@, c.parents@[j as int].uuid);
                    }
                    let mut v = extra.remove(p);
                    v.push(LinkRef { uuid: c.uuid, hrid: c.hrid.clone() });
                    extra.insert(p, v);
                    proof {
                        assert forall|q: int| 0 <= q < n implies refs_view(#[trigger] extra@[q]@) == children_found(entries@, q, idx as int)
                            + links_to(entries@, cv, pu.take(j + 1), q) by {
                            if q == p {
                                assert(refs_view(extra@[q]@) =~= refs_view(before[q]@).push(cv));
                                assert(children_found(entries@, q, idx as int) + links_to(entries@, cv, pu.take(j + 1), q)
                                    =~= children_found(entries@, q, idx as int) + links_to(entries@, cv, pu.take(j as int), q) + seq![cv]);
                            } else {
                                assert(extra@[q] == before[q]);
                                assert(links_to(entries@, cv, pu.take(j + 1), q) =~= links_to(entries@, cv, pu.take(j as int), q));
                            }
                        }
                    }
                },
                None => {
                    proof {
                        assert forall|q: int| 0 <= q < n implies refs_view(#[trigger] extra@[q]@) == children_found(entries@, q, idx as int)
                            + links_to(entries@, cv, pu.take(j + 1), q) by {
                            assert(links_to(entries@, cv, pu.take(j + 1), q) =~= links_to(entries@, cv, pu.take(j as int), q));
                        }
                    }
                },
            }
            j = j + 1;
        }
        proof {
            assert(pu.take(j as int) =~= pu);
            assert forall|p: int| 0 <= p < n implies refs_view(#[trigger] extra@[p]@) == children_found(entries@, p, idx + 1) by {
                assert(entries@[idx as int] == c);
            }
        }
        idx = idx + 1;
    }
    let mut r: Vec<ListEntry> = Vec::new();
    let mut i: usize = 0;
    while i < n
        invariant
            i <= n,
            n == entries@.len(),
            extra@.len() == n,
            forall|p: int| 0 <= p < n ==> refs_view(#[trigger] extra@[p]@) == children_found(entries@, p, n as int),
            r@.len() == i,
            forall|p: int| 0 <= p < i ==> same_but_children(
                entries@[p],
                #[trigger] r@[p],
                children_found(entries@, p, n as int),
            ),
        decreases n - i,
    {
        let e = &entries[i];
        let mut children = copy_refs(&e.children);
        let add = &extra[i];
        let mut t: usize = 0;
        let ghost base = refs_view(children@);
        while t < add.len()
            invariant
                t <= add@.len(),
                refs_view(children@) == base + refs_view(add@.take(t as int)),
            decreases add@.len() - t,
        {
            let ghost before = children@;
            children.push(copy_ref(&add[t]));
            proof {
                assert(add@.take(t + 1) =~= add@.take(t as int).push(add@[t as int]));
                assert(refs_view(children@) =~= refs_view(before).push(ref_view(add@[t as int])));
                assert(refs_view(add@.take(t + 1)) =~= refs_view(add@.take(t as int)).push(ref_view(add@[t as int])));
                assert(refs_view(children@) =~= base + refs_view(add@.take(t + 1)));
            }
            t = t + 1;
        }
        proof {
            assert(add@.take(t as int) =~= add@);
        }
        r.push(ListEntry {
            uuid: e.uuid,
            hrid: e.hrid.clone(),
            title: copy_opt_string(&e.title),
            tags: crate::requirement::copy_strings(e.tags.as_slice()),
            created: e.created,
            content: copy_string(&e.content),
            parents: copy_refs(&e.parents),
            children,
            path: copy_string(&e.path),
        });
        i = i + 1;
    }
    r
}

// ---------------------------------------------------------------------------
// Snapshots of the store
// ---------------------------------------------------------------------------

/// A path below `root` as displayed: the components joined with `/`, after
/// the root and a `/` unless the root is empty or already ends in one.
pub open spec fn display_path(root: Seq<char>, comps: Seq<Seq<char>>) -> Seq<char> {
    if root.len() == 0 {
        join(comps, "/"@)
    } else if root.last() == '/' {
        root + join(comps, "/"@)
    } else {
        root + "/"@ + join(comps, "/"@)
    }
}

/// The markdown content shown for a requirement: its heading and body.
pub open spec fn entry_content(h: SpecHrid, digits: nat, title: Seq<char>, body: Seq<char>) -> Seq<char> {
    "# "@ + spec_display(h, digits) + " "@ + title + "\n\n"@ + body
}

/// The file of requirement `u` of the store: the recorded one, else the
/// canonical one.
pub open spec fn entry_file(dir: &Directory, u: u128) -> Seq<Seq<char>> {
    if dir.path_map().contains_key(u) {
        dir.path_map()[u]
    } else {
        dir.canonical(dir.tree_view().reqs()[u].hrid)
    }
}

/// `e` is the listing snapshot of requirement `u` of the store, with no
/// children recorded yet.
pub open spec fn snapshot_of(dir: &Directory, root: Seq<char>, u: u128, e: ListEntry) -> bool {
    let q = dir.tree_view().reqs()[u];
    let digits = dir.config_view().digits;
    &&& e.uuid == u
    &&& e.hrid@ == q.hrid
    &&& opt_text(e.title) == Some(q.title)
    &&& tags_view(e.tags@) == q.tags
    &&& e.created == q.created
    &&& e.content@ == entry_content(q.hrid, digits, q.title, q.body)
    &&& ref_uuids(e.parents@).no_duplicates()
    &&& ref_uuids(e.parents@).to_set() == dir.tree_view().parents_of(u)
    &&& forall|i: int| 0 <= i < e.parents@.len() ==> (#[trigger] e.parents@[i]).hrid@ == dir.tree_view().links()[(u, e.parents@[i].uuid)].hrid
    &&& e.children@.len() == 0
    &&& e.path@ == display_path(root, entry_file(dir, u))
}

/// The displayed form of a path below `root`.
pub fn path_text(root: &str, comps: &Vec<String>) -> (r: String)
    ensures
        r@ == display_path(root@, texts(comps@)),
{
    proof {
        reveal_strlit("/");
    }
    let slash: Vec<char> = vec!['/'];
    assert(slash@ =~= "/"@);
    let mut parts: Vec<Vec<char>> = Vec::new();
    let mut i: usize = 0;
    while i < comps.len()
        invariant
            i <= comps@.len(),
            parts@.len() == i,
            forall|j: int| 0 <= j < i ==> #[trigger] parts@[j]@ == comps@[j]@,
        decreases comps@.len() - i,
    {
        parts.push(chars_of(comps[i].as_str()));
        i = i + 1;
    }
    let joined = crate::text::join_range(&parts, 0, parts.len(), slash.as_slice());
    proof {
        assert(parts@.subrange(0, parts@.len() as int).map_values(|l: Vec<char>| l@) =~= texts(comps@));
    }
    let rv = chars_of(root);
    let mut r = string_of(root);
    if rv.len() > 0 && rv[rv.len() - 1] != '/' {
        push_str(&mut r, "/");
    }
    push_str(&mut r, string_from_chars(joined.as_slice()).as_str());
    r
}

/// One listing entry per requirement of the store, in storage order, with
/// files displayed below `root`; children are recorded by
/// [`link_children`].
pub fn collect_entries(dir: &Directory, root: &str) -> (r: Vec<ListEntry>)
    requires
        dir.wf(),
    ensures
        r@.len() == dir.tree_view().order().len(),
        forall|i: int| 0 <= i < r@.len() ==> snapshot_of(dir, root@, dir.tree_view().order()[i], #[trigger] r@[i]),
{
    proof {
        dir.lemma_tree_wf();
    }
    let views = dir.tree().iter();
    let digits = dir.config().digits();
    let mut r: Vec<ListEntry> = Vec::new();
    let mut i: usize = 0;
    while i < views.len()
        invariant
            dir.wf(),
            dir.tree_view().wf(),
            digits == dir.config_view().digits,
            i <= views@.len(),
            views@.len() == dir.tree_view().order().len(),
            forall|j: int| 0 <= j < views@.len() ==> dir.tree_view().describes(dir.tree_view().order()[j], #[trigger] views@[j]),
            r@.len() == i,
            forall|j: int| 0 <= j < i ==> snapshot_of(dir, root@, dir.tree_view().order()[j], #[trigger] r@[j]),
        decreases views@.len() - i,
    {
        let v = &views[i];
        let ghost u = dir.tree_view().order()[i as int];
        proof {
            assert(dir.tree_view().describes(u, views@[i as int]));
        }
        entry_snapshot_step(dir, root, v, digits, &mut r, Ghost(u));
        i = i + 1;
    }
    r
}

fn entry_snapshot_step(dir: &Directory, root: &str, v: &RequirementView, digits: usize, r: &mut Vec<ListEntry>, Ghost(u): Ghost<u128>)
    requires
        dir.wf(),
        dir.tree_view().wf(),
        digits == dir.config_view().digits,
        dir.tree_view().describes(u, *v),
    ensures
        final(r)@ == old(r)@.push(final(r)@.last()),
        snapshot_of(dir, root@, u, final(r)@.last()),
{
    proof {
        reveal_strlit("# ");
        reveal_strlit(" ");
        reveal_strlit("\n\n");
    }
    let mut parents: Vec<LinkRef> = Vec::new();
    let mut j: usize = 0;
    while j < v.parents.len()
        invariant
            j <= v.parents@.len(),
            parents@.len() == j,
            forall|k: int| 0 <= k < j ==> (#[trigger] parents@[k]).uuid == v.parents@[k].0 && parents@[k].hrid@ == v.parents@[k].1.hrid@,
        decreases v.parents@.len() - j,
    {
        parents.push(LinkRef { uuid: v.parents[j].0, hrid: v.parents[j].1.hrid.clone() });
        j = j + 1;
    }
    let mut content = string_of("# ");
    push_str(&mut content, v.hrid.to_string_with_digits(digits).as_str());
    push_str(&mut content, " ");
    push_str(&mut content, v.title.as_str());
    push_str(&mut content, "\n\n");
    push_str(&mut content, v.body.as_str());
    let found = dir.path_for(&v.hrid);
    proof {
        let t = dir.tree_view();
        if let Some(ref p) = found {
            let w = choose|w: u128| t.reqs().contains_key(w) && t.reqs()[w].hrid == v.hrid@ && dir.path_map().contains_key(w)
                && #[trigger] dir.path_map()[w] == texts(p@);
            t.lemma_hrid_unique(u, w);
            assert(dir.path_map().contains_key(u) && dir.path_map()[u] == texts(p@));
        } else {
            assert(t.reqs().contains_key(u) && t.reqs()[u].hrid == v.hrid@);
            assert(!dir.path_map().contains_key(u));
        }
    }
    let file = match found {
        Some(p) => p,
        None => dir.canonical_path_for(&v.hrid),
    };
    proof {
        let t = dir.tree_view();
        assert(texts(file@) == entry_file(dir, u));
        let pv = crate::requirement::parents_view(v.parents@);
        assert(ref_uuids(parents@) =~= crate::tree::firsts(pv));
        assert forall|k: int| 0 <= k < parents@.len() implies (#[trigger] parents@[k]).hrid@ == t.links()[(u, parents@[k].uuid)].hrid by {
            assert(pv[k] == (v.parents@[k].0, v.parents@[k].1@));
            assert(t.links()[(u, pv[k].0)] == pv[k].1);
        }
    }
    let path = path_text(root, &file);
    let e = ListEntry {
        uuid: v.uuid,
        hrid: v.hrid.clone(),
        title: Some(copy_string(&v.title)),
        tags: crate::requirement::copy_strings(v.tags.as_slice()),
        created: v.created,
        content,
        parents,
        children: Vec::new(),
        path,
    };
    proof {
        let q = dir.tree_view().reqs()[u];
        assert(e.content@ =~= entry_content(q.hrid, digits as nat, q.title, q.body));
        assert(e.path@ == display_path(root@, entry_file(dir, u)));
        assert(opt_text(e.title) == Some(q.title));
    }
    r.push(e);
}

// ---------------------------------------------------------------------------
// Filters
// ---------------------------------------------------------------------------

#[verifier::external_type_specification]
#[verifier::external_body]
pub struct ExRegex(regex::Regex);

/// Whether `regex` accepts a pattern (valid syntax within its default size
/// limit).
pub uninterp spec fn regex_valid(pattern: Seq<char>) -> bool;

/// `regex::Regex::new`: compiles a pattern, `None` exactly when the pattern
/// is refused, which depends on the pattern alone; the error's details are
/// dropped.
#[verifier::external_body]
fn regex_compile(pattern: &str) -> (r: Option<regex::Regex>)
    ensures
        r is Some == regex_valid(pattern@),
{
    regex::Regex::new(pattern).ok()
}

/// Whether the pattern, compiled by `regex`, matches anywhere in the
/// haystack: a function of the pattern text and the haystack alone.
pub uninterp spec fn regex_match(pattern: Seq<char>, haystack: Seq<char>) -> bool;

/// A regular expression together with the text it was compiled from.
/// Only [`Pattern::compile`] builds one, so the compiled form is always the
/// one `regex` makes of `source`.
#[derive(Debug)]
pub struct Pattern {
    source: String,
    compiled: regex::Regex,
}

impl Pattern {
    /// The text the pattern was compiled from.
    pub closed spec fn source_text(&self) -> Seq<char> {
        self.source@
    }

    /// Compiles `pattern`; `None` exactly when `regex` refuses it.
    pub fn compile(pattern: &str) -> (r: Option<Pattern>)
        ensures
            r is Some == regex_valid(pattern@),
            r matches Some(p) ==> p.source_text() == pattern@,
    {
        match regex_compile(pattern) {
            Some(compiled) => Some(Pattern { source: string_of(pattern), compiled }),
            None => None,
        }
    }

    /// The text the pattern was compiled from.
    pub fn as_str(&self) -> (r: &str)
        ensures
            r@ == self.source_text(),
    {
        self.source.as_str()
    }
}

/// `regex::Regex::is_match` on the compiled form of a pattern: whether it
/// matches anywhere in the haystack, named by [`regex_match`] over the
/// pattern's source text.
#[verifier::external_body]
fn regex_is_match(p: &Pattern, haystack: &str) -> (r: bool)
    ensures
        r == regex_match(p.source_text(), haystack@),
{
    p.compiled.is_match(haystack)
}

/// The filters given on the command line, with kinds, namespaces, tags and
/// the search text in lower case, and the pattern compiled.
#[derive(Debug)]
pub struct Filters {
    pub kinds: Vec<String>,
    pub namespaces: Vec<String>,
    pub tags: Vec<String>,
    pub orphans: bool,
    pub leaves: bool,
    pub contains: Option<String>,
    pub regex: Option<Pattern>,
}

/// Texts in ASCII lower case.
pub open spec fn lower_all(v: Seq<Seq<char>>) -> Seq<Seq<char>> {
    v.map_values(|t: Seq<char>| ascii_lower(t))
}

/// Some text of `a` equals, in ASCII lower case, some text of `b`.
pub open spec fn meets(a: Seq<Seq<char>>, b: Seq<Seq<char>>) -> bool {
    exists|i: int, j: int| 0 <= i < a.len() && 0 <= j < b.len() && a[i] == ascii_lower(#[trigger] b[j]) && #[trigger] a[i] == a[i]
}

/// The title shown for an entry (empty when it has none).
pub open spec fn title_text(e: ListEntry) -> Seq<char> {
    match e.title {
        Some(t) => t@,
        None => Seq::empty(),
    }
}

/// The text the pattern is matched against: the title, a newline and the
/// content, or the content alone when there is no title.
pub open spec fn haystack(e: ListEntry) -> Seq<char> {
    match e.title {
        Some(t) => t@ + "\n"@ + e.content@,
        None => e.content@,
    }
}

impl Filters {
    /// Some filter is active.
    pub open spec fn active(&self) -> bool {
        ||| self.kinds@.len() > 0
        ||| self.namespaces@.len() > 0
        ||| self.tags@.len() > 0
        ||| self.orphans
        ||| self.leaves
        ||| self.contains is Some
        ||| self.regex is Some
    }

    /// Every filter lets `e` through, the pattern's verdict on its
    /// haystack being `regex_hit`.
    pub open spec fn admits(&self, e: ListEntry, regex_hit: bool) -> bool {
        &&& self.kinds@.len() > 0 ==> texts(self.kinds@).contains(ascii_lower(e.hrid@.kind))
        &&& self.namespaces@.len() > 0 ==> meets(texts(self.namespaces@), e.hrid@.namespace)
        &&& self.tags@.len() > 0 ==> meets(texts(self.tags@), tags_view(e.tags@))
        &&& self.orphans ==> e.parents@.len() == 0
        &&& self.leaves ==> e.children@.len() == 0
        &&& (self.contains matches Some(q) ==> occurs_from(ascii_lower(title_text(e)), q@, 0)
            || occurs_from(ascii_lower(e.content@), q@, 0))
        &&& (self.regex is Some ==> regex_hit)
    }
}

/// The `--contains` search, alone: an entry is admitted exactly when the
/// (lower-cased) search text is a run of its lower-cased title or, failing
/// that, of its lower-cased content. A text found only in the body admits
/// the entry whatever its title.
pub proof fn law_contains_searches_title_then_body(f: Filters, e: ListEntry, regex_hit: bool, q: Seq<char>)
    requires
        f.kinds@.len() == 0,
        f.namespaces@.len() == 0,
        f.tags@.len() == 0,
        !f.orphans,
        !f.leaves,
        f.regex is None,
        f.contains matches Some(c) && c@ == q,
    ensures
        (exists|i: int|
            0 <= i && i + q.len() <= ascii_lower(e.content@).len() && #[trigger] ascii_lower(e.content@).subrange(
                i,
                i + q.len(),
            ) == q) ==> f.admits(e, regex_hit),
        (exists|i: int|
            0 <= i && i + q.len() <= ascii_lower(title_text(e)).len() && #[trigger] ascii_lower(title_text(e)).subrange(
                i,
                i + q.len(),
            ) == q) ==> f.admits(e, regex_hit),
        f.admits(e, regex_hit) ==> (exists|i: int|
            0 <= i && i + q.len() <= ascii_lower(title_text(e)).len() && #[trigger] ascii_lower(title_text(e)).subrange(
                i,
                i + q.len(),
            ) == q) || (exists|i: int|
            0 <= i && i + q.len() <= ascii_lower(e.content@).len() && #[trigger] ascii_lower(e.content@).subrange(
                i,
                i + q.len(),
            ) == q),
{
    let body = ascii_lower(e.content@);
    let title = ascii_lower(title_text(e));
    if exists|i: int| 0 <= i && i + q.len() <= body.len() && #[trigger] body.subrange(i, i + q.len()) == q {
        let i = choose|i: int| 0 <= i && i + q.len() <= body.len() && #[trigger] body.subrange(i, i + q.len()) == q;
        assert(crate::summary::occurs_at(body, q, i));
    }
    if exists|i: int| 0 <= i && i + q.len() <= title.len() && #[trigger] title.subrange(i, i + q.len()) == q {
        let i = choose|i: int| 0 <= i && i + q.len() <= title.len() && #[trigger] title.subrange(i, i + q.len()) == q;
        assert(crate::summary::occurs_at(title, q, i));
    }
    if f.admits(e, regex_hit) {
        if occurs_from(title, q, 0) {
            let i = choose|i: int| 0 <= i && #[trigger] crate::summary::occurs_at(title, q, i);
            assert(title.subrange(i, i + q.len()) == q);
        } else {
            let i = choose|i: int| 0 <= i && #[trigger] crate::summary::occurs_at(body, q, i);
            assert(body.subrange(i, i + q.len()) == q);
        }
    }
}

/// With other filters too, the text search is one more condition: an
/// entry passes exactly when it passes the other filters and the search
/// text is a run of its lower-cased title or lower-cased content.
pub proof fn law_contains_adds_a_title_or_body_condition(f: Filters, e: ListEntry, regex_hit: bool, q: Seq<char>)
    requires
        f.contains matches Some(c) && c@ == q,
    ensures
        f.admits(e, regex_hit) == (Filters { contains: None, ..f }.admits(e, regex_hit) && ((exists|i: int|
            0 <= i && i + q.len() <= ascii_lower(title_text(e)).len() && #[trigger] ascii_lower(title_text(e)).subrange(
                i,
                i + q.len(),
            ) == q) || (exists|i: int|
            0 <= i && i + q.len() <= ascii_lower(e.content@).len() && #[trigger] ascii_lower(e.content@).subrange(
                i,
                i + q.len(),
            ) == q))),
{
    let body = ascii_lower(e.content@);
    let title = ascii_lower(title_text(e));
    if exists|i: int| 0 <= i && i + q.len() <= body.len() && #[trigger] body.subrange(i, i + q.len()) == q {
        let i = choose|i: int| 0 <= i && i + q.len() <= body.len() && #[trigger] body.subrange(i, i + q.len()) == q;
        assert(crate::summary::occurs_at(body, q, i));
    }
    if exists|i: int| 0 <= i && i + q.len() <= title.len() && #[trigger] title.subrange(i, i + q.len()) == q {
        let i = choose|i: int| 0 <= i && i + q.len() <= title.len() && #[trigger] title.subrange(i, i + q.len()) == q;
        assert(crate::summary::occurs_at(title, q, i));
    }
    if occurs_from(title, q, 0) {
        let i = choose|i: int| 0 <= i && #[trigger] crate::summary::occurs_at(title, q, i);
        assert(title.subrange(i, i + q.len()) == q);
    }
    if occurs_from(body, q, 0) {
        let i = choose|i: int| 0 <= i && #[trigger] crate::summary::occurs_at(body, q, i);
        assert(body.subrange(i, i + q.len()) == q);
    }
}

/// ASCII lower case of a string.
fn lower_string(s: &str) -> (r: String)
    ensures
        r@ == ascii_lower(s@),
{
    let v = chars_of(s);
    let l = ascii_lower_chars(v.as_slice());
    string_from_chars(l.as_slice())
}

fn lower_strings(v: &[String]) -> (r: Vec<String>)
    ensures
        texts(r@) == lower_all(texts(v@)),
{
    let mut r: Vec<String> = Vec::new();
    let mut i: usize = 0;
    while i < v.len()
        invariant
            i <= v@.len(),
            r@.len() == i,
            forall|j: int| 0 <= j < i ==> #[trigger] r@[j]@ == ascii_lower(v@[j]@),
        decreases v@.len() - i,
    {
        r.push(lower_string(v[i].as_str()));
        i = i + 1;
    }
    assert(texts(r@) =~= lower_all(texts(v@)));
    r
}

/// Whether some string of `v` equals `t`.
fn contains_text(v: &[String], t: &str) -> (r: bool)
    ensures
        r == texts(v@).contains(t@),
{
    let mut i: usize = 0;
    while i < v.len()
        invariant
            i <= v@.len(),
            forall|j: int| 0 <= j < i ==> #[trigger] v@[j]@ != t@,
        decreases v@.len() - i,
    {
        if str_eq(v[i].as_str(), t) {
            proof {
                assert(texts(v@)[i as int] == t@);
            }
            return true;
        }
        i = i + 1;
    }
    proof {
        if texts(v@).contains(t@) {
            let j = choose|j: int| 0 <= j < texts(v@).len() && texts(v@)[j] == t@;
            assert(v@[j]@ == t@);
        }
    }
    false
}

/// Whether some string of `wanted` equals some text of `have` in lower case.
fn meets_any(wanted: &[String], have: &[String]) -> (r: bool)
    ensures
        r == meets(texts(wanted@), texts(have@)),
{
    let lowered = lower_strings(have);
    let mut i: usize = 0;
    while i < wanted.len()
        invariant
            i <= wanted@.len(),
            texts(lowered@) == lower_all(texts(have@)),
            forall|a: int, b: int| 0 <= a < i && 0 <= b < have@.len() ==> #[trigger] wanted@[a]@ != ascii_lower(#[trigger] have@[b]@),
        decreases wanted@.len() - i,
    {
        if contains_text(lowered.as_slice(), wanted[i].as_str()) {
            proof {
                let b = choose|b: int| 0 <= b < texts(lowered@).len() && texts(lowered@)[b] == wanted@[i as int]@;
                assert(lower_all(texts(have@))[b] == ascii_lower(have@[b]@));
                assert(texts(wanted@)[i as int] == ascii_lower(texts(have@)[b]));
            }
            return true;
        }
        proof {
            assert forall|b: int| 0 <= b < have@.len() implies #[trigger] wanted@[i as int]@ != ascii_lower(#[trigger] have@[b]@) by {
                assert(lower_all(texts(have@))[b] == ascii_lower(have@[b]@));
                assert(texts(lowered@)[b] == lowered@[b]@);
                if wanted@[i as int]@ == ascii_lower(have@[b]@) {
                    assert(texts(lowered@).contains(wanted@[i as int]@));
                }
            }
        }
        i = i + 1;
    }
    proof {
        if meets(texts(wanted@), texts(have@)) {
            let (a, b) = choose|a: int, b: int| 0 <= a < texts(wanted@).len() && 0 <= b < texts(have@).len()
                && texts(wanted@)[a] == ascii_lower(#[trigger] texts(have@)[b]) && #[trigger] texts(wanted@)[a] == texts(wanted@)[a];
            assert(wanted@[a]@ != ascii_lower(have@[b]@));
        }
    }
    false
}

/// Whether `needle` occurs in `hay` (case as given).
fn text_contains(hay: &str, needle: &str) -> (r: bool)
    ensures
        r == occurs_from(hay@, needle@, 0),
{
    let h = chars_of(hay);
    let n = chars_of(needle);
    match find_first(h.as_slice(), n.as_slice()) {
        Some(i) => {
            proof {
                lemma_first_from_unique(h@, n@, 0, i as int);
            }
            true
        },
        None => false,
    }
}

fn kind_text(h: &Hrid) -> (r: String)
    ensures
        r@ == h@.kind,
{
    string_of(h.kind())
}

fn namespace_strings(h: &Hrid) -> (r: Vec<String>)
    ensures
        texts(r@) == h@.namespace,
{
    let ns = h.namespace();
    let mut r: Vec<String> = Vec::new();
    let mut i: usize = 0;
    while i < ns.len()
        invariant
            i <= ns@.len(),
            ns@.len() == h@.namespace.len(),
            forall|k: int| 0 <= k < ns@.len() ==> #[trigger] ns@[k]@ == h@.namespace[k],
            r@.len() == i,
            forall|j: int| 0 <= j < i ==> #[trigger] r@[j]@ == h@.namespace[j],
        decreases ns@.len() - i,
    {
        r.push(string_of(ns[i]));
        i = i + 1;
    }
    assert(texts(r@) =~= h@.namespace);
    r
}

impl Filters {
    /// The filters from the command-line values: kinds, namespaces, tags
    /// and the search text in lower case, the pattern compiled. A pattern
    /// the `regex` crate refuses gives `invalid regex: <pattern>`.
    pub fn new(
        kinds: &[String],
        namespaces: &[String],
        tags: &[String],
        orphans: bool,
        leaves: bool,
        contains: Option<String>,
        regex: Option<String>,
    ) -> (r: Result<Filters, String>)
        ensures
            match r {
                Ok(f) => {
                    &&& regex matches Some(p) ==> regex_valid(p@)
                    &&& texts(f.kinds@) == lower_all(texts(kinds@))
                    &&& texts(f.namespaces@) == lower_all(texts(namespaces@))
                    &&& texts(f.tags@) == lower_all(texts(tags@))
                    &&& f.orphans == orphans
                    &&& f.leaves == leaves
                    &&& opt_text(f.contains) == match contains {
                        Some(c) => Some(ascii_lower(c@)),
                        None => None::<Seq<char>>,
                    }
                    &&& f.regex is Some == regex is Some
                    &&& (f.regex matches Some(q) ==> regex matches Some(p) && q.source_text() == p@)
                },
                Err(msg) => regex matches Some(p) && !regex_valid(p@) && msg@ == "invalid regex: "@ + p@,
            },
    {
        let compiled = match regex {
            Some(p) => match Pattern::compile(p.as_str()) {
                Some(re) => Some(re),
                None => {
                    let mut msg = string_of("invalid regex: ");
                    push_str(&mut msg, p.as_str());
                    return Err(msg);
                },
            },
            None => None,
        };
        let lowered = match contains {
            Some(c) => Some(lower_string(c.as_str())),
            None => None,
        };
        Ok(Filters {
            kinds: lower_strings(kinds),
            namespaces: lower_strings(namespaces),
            tags: lower_strings(tags),
            orphans,
            leaves,
            contains: lowered,
            regex: compiled,
        })
    }

    /// Whether any filter is active.
    pub fn any(&self) -> (r: bool)
        ensures
            r == self.active(),
    {
        self.kinds.len() > 0 || self.namespaces.len() > 0 || self.tags.len() > 0 || self.orphans || self.leaves
            || self.contains.is_some() || self.regex.is_some()
    }

    /// A summary of the active filters for the listing's header.
    pub fn describe(&self) -> (r: String)
        ensures
            r@ == if !self.active() {
                "none"@
            } else {
                join(filter_parts(self), ", "@)
            },
    {
        if !self.any() {
            return string_of("none");
        }
        let mut parts: Vec<String> = Vec::new();
        let ghost mut acc: Seq<Seq<char>> = Seq::empty();
        if self.kinds.len() > 0 {
            let mut p = string_of("kind: ");
            push_str(&mut p, crate::directory::join_comma(self.kinds.as_slice()).as_str());
            parts.push(p);
        }
        if self.namespaces.len() > 0 {
            let mut p = string_of("namespace: ");
            push_str(&mut p, crate::directory::join_comma(self.namespaces.as_slice()).as_str());
            parts.push(p);
        }
        if self.tags.len() > 0 {
            let mut p = string_of("tag: ");
            push_str(&mut p, crate::directory::join_comma(self.tags.as_slice()).as_str());
            parts.push(p);
        }
        if self.orphans {
            parts.push(string_of("orphans"));
        }
        if self.leaves {
            parts.push(string_of("leaves"));
        }
        if self.contains.is_some() {
            parts.push(string_of("text-match"));
        }
        if self.regex.is_some() {
            parts.push(string_of("regex-match"));
        }
        proof {
            assert(texts(parts@) =~= filter_parts(self));
        }
        crate::directory::join_comma(parts.as_slice())
    }

    /// Whether `entry` passes every filter, given the pattern's verdict on
    /// its haystack.
    pub fn admits_with(&self, entry: &ListEntry, regex_hit: bool) -> (r: bool)
        ensures
            r == self.admits(*entry, regex_hit),
    {
        if self.kinds.len() > 0 {
            let kind = lower_string(entry.hrid.kind());
            if !contains_text(self.kinds.as_slice(), kind.as_str()) {
                return false;
            }
        }
        if self.namespaces.len() > 0 {
            let ns = namespace_strings(&entry.hrid);
            if !meets_any(self.namespaces.as_slice(), ns.as_slice()) {
                return false;
            }
        }
        if self.tags.len() > 0 {
            if !meets_any(self.tags.as_slice(), entry.tags.as_slice()) {
                return false;
            }
        }
        if self.orphans && entry.parents.len() > 0 {
            return false;
        }
        if self.leaves && entry.children.len() > 0 {
            return false;
        }
        match &self.contains {
            Some(search) => {
                let title = match &entry.title {
                    Some(t) => lower_string(t.as_str()),
                    None => String::new(),
                };
                proof {
                    if entry.title is None {
                        assert(ascii_lower(title_text(*entry)) =~= title@);
                    }
                }
                if !text_contains(title.as_str(), search.as_str()) {
                    let content = lower_string(entry.content.as_str());
                    if !text_contains(content.as_str(), search.as_str()) {
                        return false;
                    }
                }
            },
            None => {},
        }
        if self.regex.is_some() && !regex_hit {
            return false;
        }
        true
    }

    /// The pattern's verdict on the entry's haystack (`true` without a
    /// pattern).
    pub fn regex_verdict(&self, entry: &ListEntry) -> (r: bool)
        ensures
            r == regex_verdict_of(self, *entry),
    {
        match &self.regex {
            Some(re) => {
                let hay = entry_haystack(entry);
                regex_is_match(re, hay.as_str())
            },
            None => true,
        }
    }

    /// The pattern's verdict on each entry, in order.
    pub fn regex_verdicts(&self, entries: &[ListEntry]) -> (r: Vec<bool>)
        ensures
            r@.len() == entries@.len(),
            forall|i: int| 0 <= i < r@.len() ==> #[trigger] r@[i] == regex_verdict_of(self, entries@[i]),
    {
        let mut r: Vec<bool> = Vec::new();
        let mut i: usize = 0;
        while i < entries.len()
            invariant
                i <= entries@.len(),
                r@.len() == i,
                forall|j: int| 0 <= j < i ==> #[trigger] r@[j] == regex_verdict_of(self, entries@[j]),
            decreases entries@.len() - i,
        {
            r.push(self.regex_verdict(&entries[i]));
            i = i + 1;
        }
        r
    }

    /// Whether `entry` passes every filter; the pattern, if any, is matched
    /// against the entry's haystack.
    pub fn matches(&self, entry: &ListEntry) -> (r: bool)
        ensures
            r == self.admits(*entry, regex_verdict_of(self, *entry)),
    {
        let hit = self.regex_verdict(entry);
        self.admits_with(entry, hit)
    }
}

/// The pattern's verdict on an entry: whether it matches the entry's
/// haystack; `true` without a pattern.
pub open spec fn regex_verdict_of(f: &Filters, e: ListEntry) -> bool {
    match f.regex {
        Some(p) => regex_match(p.source_text(), haystack(e)),
        None => true,
    }
}

/// The parts of a filter summary, in order.
pub open spec fn filter_parts(f: &Filters) -> Seq<Seq<char>> {
    (if f.kinds@.len() > 0 { seq!["kind: "@ + join(texts(f.kinds@), ", "@)] } else { Seq::empty() })
        + (if f.namespaces@.len() > 0 { seq!["namespace: "@ + join(texts(f.namespaces@), ", "@)] } else { Seq::empty() })
        + (if f.tags@.len() > 0 { seq!["tag: "@ + join(texts(f.tags@), ", "@)] } else { Seq::empty() })
        + (if f.orphans { seq!["orphans"@] } else { Seq::empty() })
        + (if f.leaves { seq!["leaves"@] } else { Seq::empty() })
        + (if f.contains is Some { seq!["text-match"@] } else { Seq::empty() })
        + (if f.regex is Some { seq!["regex-match"@] } else { Seq::empty() })
}

/// The text a pattern filter is matched against.
pub fn entry_haystack(entry: &ListEntry) -> (r: String)
    ensures
        r@ == haystack(*entry),
{
    match &entry.title {
        Some(t) => {
            let mut h = copy_string(t);
            push_str(&mut h, "\n");
            push_str(&mut h, entry.content.as_str());
            h
        },
        None => copy_string(&entry.content),
    }
}

// ---------------------------------------------------------------------------
// Rows
// ---------------------------------------------------------------------------

/// Entry `i` passes the filters, `hits` holding the pattern's verdict on
/// each entry.
pub open spec fn passes(f: &Filters, entries: Seq<ListEntry>, hits: Seq<bool>, i: int) -> bool {
    f.admits(entries[i], hits[i])
}

/// The row of a target.
pub open spec fn target_row(i: usize) -> Row {
    Row { index: i, direction: Direction::Neutral, depth: 0 }
}

/// The rows of the targets that pass the filters, in order.
pub open spec fn base_rows(f: &Filters, entries: Seq<ListEntry>, hits: Seq<bool>, targets: Seq<usize>) -> Seq<Row>
    decreases targets.len(),
{
    if targets.len() == 0 {
        Seq::empty()
    } else {
        let prev = base_rows(f, entries, hits, targets.drop_last());
        let i = targets.last();
        if passes(f, entries, hits, i as int) {
            prev.push(target_row(i))
        } else {
            prev
        }
    }
}

/// A filter that is not active lets every entry through.
proof fn lemma_inactive_admits(f: &Filters, e: ListEntry, hit: bool)
    requires
        !f.active(),
    ensures
        f.admits(e, hit),
{
}

/// The rows of the summary view: the targets that pass the filters.
pub fn produce_base_rows(entries: &[ListEntry], filters: &Filters, hits: &[bool], targets: &[usize]) -> (r: Vec<Row>)
    requires
        hits@.len() == entries@.len(),
        forall|k: int| 0 <= k < targets@.len() ==> #[trigger] targets@[k] < entries@.len(),
    ensures
        r@ == base_rows(filters, entries@, hits@, targets@),
{
    let any = filters.any();
    let mut r: Vec<Row> = Vec::new();
    let mut k: usize = 0;
    while k < targets.len()
        invariant
            hits@.len() == entries@.len(),
            forall|k: int| 0 <= k < targets@.len() ==> #[trigger] targets@[k] < entries@.len(),
            any == filters.active(),
            k <= targets@.len(),
            r@ == base_rows(filters, entries@, hits@, targets@.take(k as int)),
        decreases targets@.len() - k,
    {
        let i = targets[k];
        proof {
            assert(targets@.take(k + 1).drop_last() =~= targets@.take(k as int));
            assert(targets@.take(k + 1).last() == i);
            if !any {
                lemma_inactive_admits(filters, entries@[i as int], hits@[i as int]);
            }
        }
        if !any || filters.admits_with(&entries[i], hits[i]) {
            r.push(Row { index: i, direction: Direction::Neutral, depth: 0 });
        }
        k = k + 1;
    }
    proof {
        assert(targets@.take(k as int) =~= targets@);
    }
    r
}

/// The position of the last text of `s` equal to `key`.
pub open spec fn last_index_of(s: Seq<Seq<char>>, key: Seq<char>) -> Option<int>
    decreases s.len(),
{
    if s.len() == 0 {
        None
    } else if s.last() == key {
        Some(s.len() - 1)
    } else {
        last_index_of(s.drop_last(), key)
    }
}

/// The entries' HRIDs as displayed.
pub open spec fn displays(entries: Seq<ListEntry>, digits: nat) -> Seq<Seq<char>> {
    entries.map_values(|e: ListEntry| spec_display(e.hrid@, digits))
}

/// The position of the last entry displayed as `key`.
pub open spec fn displayed_at(entries: Seq<ListEntry>, digits: nat, key: Seq<char>) -> Option<int> {
    last_index_of(displays(entries, digits), key)
}

fn find_last_text(keys: &[String], key: &str) -> (r: Option<usize>)
    ensures
        match r {
            Some(i) => last_index_of(texts(keys@), key@) == Some(i as int),
            None => last_index_of(texts(keys@), key@) is None,
        },
{
    let mut p: usize = keys.len();
    proof {
        assert(texts(keys@).take(p as int) =~= texts(keys@));
    }
    while p > 0
        invariant
            p <= keys@.len(),
            last_index_of(texts(keys@), key@) == last_index_of(texts(keys@).take(p as int), key@),
        decreases p,
    {
        proof {
            assert(texts(keys@).take(p as int).drop_last() =~= texts(keys@).take(p - 1));
        }
        if str_eq(keys[p - 1].as_str(), key) {
            return Some(p - 1);
        }
        p = p - 1;
    }
    None
}

/// The positions of the requested HRIDs, each looked up by its display
/// (the last entry displayed alike); the first HRID not found is named in
/// the error `requirement <HRID> not found`.
pub fn resolve_targets(entries: &[ListEntry], targets: &[Hrid], digits: usize) -> (r: Result<Vec<usize>, String>)
    ensures
        match r {
            Ok(v) => v@.len() == targets@.len() && forall|k: int| 0 <= k < targets@.len() ==>
                displayed_at(entries@, digits as nat, spec_display(#[trigger] targets@[k]@, digits as nat)) == Some(v@[k] as int),
            Err(msg) => exists|k: int| 0 <= k < targets@.len()
                && displayed_at(entries@, digits as nat, spec_display(#[trigger] targets@[k]@, digits as nat)) is None
                && (forall|j: int| 0 <= j < k ==> displayed_at(entries@, digits as nat, spec_display(#[trigger] targets@[j]@, digits as nat)) is Some)
                && msg@ == "requirement "@ + spec_display(targets@[k]@, digits as nat) + " not found"@,
        },
{
    let mut keys: Vec<String> = Vec::new();
    let mut i: usize = 0;
    while i < entries.len()
        invariant
            i <= entries@.len(),
            keys@.len() == i,
            forall|j: int| 0 <= j < i ==> #[trigger] keys@[j]@ == spec_display(entries@[j].hrid@, digits as nat),
        decreases entries@.len() - i,
    {
        keys.push(entries[i].hrid.to_string_with_digits(digits));
        i = i + 1;
    }
    proof {
        assert(texts(keys@) =~= displays(entries@, digits as nat));
    }
    let mut out: Vec<usize> = Vec::new();
    let mut k: usize = 0;
    while k < targets.len()
        invariant
            k <= targets@.len(),
            texts(keys@) == displays(entries@, digits as nat),
            out@.len() == k,
            forall|j: int| 0 <= j < k ==> displayed_at(entries@, digits as nat, spec_display(#[trigger] targets@[j]@, digits as nat))
                == Some(out@[j] as int),
        decreases targets@.len() - k,
    {
        let key = targets[k].to_string_with_digits(digits);
        match find_last_text(keys.as_slice(), key.as_str()) {
            Some(q) => {
                out.push(q);
            },
            None => {
                let mut msg = string_of("requirement ");
                push_str(&mut msg, key.as_str());
                push_str(&mut msg, " not found");
                return Err(msg);
            },
        }
        k = k + 1;
    }
    Ok(out)
}

// ---------------------------------------------------------------------------
// Walking the relationships
// ---------------------------------------------------------------------------

/// Entry `i` relates to entry `j` in direction `d`: one of its links in that
/// direction resolves to `j`.
pub open spec fn steps(entries: Seq<ListEntry>, d: Direction, i: int, j: int) -> bool {
    exists|k: int| 0 <= k < related(entries[i], d).len() && #[trigger] position_of(entries, related(entries[i], d)[k]) == Some(j)
}

/// Some seed relates to entry `j`.
pub open spec fn seed_step(entries: Seq<ListEntry>, seeds: Seq<usize>, d: Direction, j: int) -> bool {
    exists|s: int| 0 <= s < seeds.len() && #[trigger] steps(entries, d, seeds[s] as int, j)
}

/// The entries reached from the seeds in at least one and at most `m`
/// steps.
pub open spec fn within(entries: Seq<ListEntry>, seeds: Seq<usize>, d: Direction, m: nat) -> Set<int>
    decreases m,
{
    if m == 0 {
        Set::empty()
    } else {
        let w = within(entries, seeds, d, (m - 1) as nat);
        Set::new(
            |j: int|
                w.contains(j) || seed_step(entries, seeds, d, j) || exists|x: int| w.contains(x) && #[trigger] steps(entries, d, x, j),
        )
    }
}

/// The fewest steps from the seeds to entry `j` is `m`.
pub open spec fn at_distance(entries: Seq<ListEntry>, seeds: Seq<usize>, d: Direction, j: int, m: nat) -> bool {
    &&& m >= 1
    &&& within(entries, seeds, d, m).contains(j)
    &&& !within(entries, seeds, d, (m - 1) as nat).contains(j)
}

/// `m` steps are allowed by the depth limit (`usize::MAX` is no limit).
pub open spec fn allowed(limit: usize, m: int) -> bool {
    limit == usize::MAX || m <= limit
}

proof fn lemma_within_mono(entries: Seq<ListEntry>, seeds: Seq<usize>, d: Direction, a: nat, b: nat)
    requires
        a <= b,
    ensures
        within(entries, seeds, d, a).subset_of(within(entries, seeds, d, b)),
    decreases b - a,
{
    if a < b {
        lemma_within_mono(entries, seeds, d, a, (b - 1) as nat);
    }
}

proof fn lemma_distance_exists(entries: Seq<ListEntry>, seeds: Seq<usize>, d: Direction, j: int, m: nat)
    requires
        within(entries, seeds, d, m).contains(j),
    ensures
        exists|e: nat| 1 <= e <= m && #[trigger] at_distance(entries, seeds, d, j, e),
    decreases m,
{
    if within(entries, seeds, d, (m - 1) as nat).contains(j) {
        lemma_distance_exists(entries, seeds, d, j, (m - 1) as nat);
        let e = choose|e: nat| 1 <= e <= m - 1 && #[trigger] at_distance(entries, seeds, d, j, e);
        assert(at_distance(entries, seeds, d, j, e));
    } else {
        assert(at_distance(entries, seeds, d, j, m));
    }
}

proof fn lemma_distance_unique(entries: Seq<ListEntry>, seeds: Seq<usize>, d: Direction, j: int, a: nat, b: nat)
    requires
        at_distance(entries, seeds, d, j, a),
        at_distance(entries, seeds, d, j, b),
    ensures
        a == b,
{
    if a < b {
        lemma_within_mono(entries, seeds, d, a, (b - 1) as nat);
    }
    if b < a {
        lemma_within_mono(entries, seeds, d, b, (a - 1) as nat);
    }
}

proof fn lemma_predecessor(entries: Seq<ListEntry>, seeds: Seq<usize>, d: Direction, j: int, m: nat)
    requires
        at_distance(entries, seeds, d, j, m),
        m >= 2,
    ensures
        exists|x: int| #[trigger] at_distance(entries, seeds, d, x, (m - 1) as nat) && steps(entries, d, x, j),
{
    let w = within(entries, seeds, d, (m - 1) as nat);
    lemma_within_mono(entries, seeds, d, 1, (m - 1) as nat);
    assert(within(entries, seeds, d, 0) =~= Set::<int>::empty());
    if seed_step(entries, seeds, d, j) {
        assert(within(entries, seeds, d, 1).contains(j));
    }
    let x = choose|x: int| w.contains(x) && #[trigger] steps(entries, d, x, j);
    lemma_distance_exists(entries, seeds, d, x, (m - 1) as nat);
    let e = choose|e: nat| 1 <= e <= m - 1 && #[trigger] at_distance(entries, seeds, d, x, e);
    if e < m - 1 {
        assert(within(entries, seeds, d, e + 1).contains(j));
        lemma_within_mono(entries, seeds, d, e + 1, (m - 1) as nat);
    }
    assert(at_distance(entries, seeds, d, x, (m - 1) as nat));
}

/// Rows with distinct entry positions below `n`, none of them `j < n`, are
/// fewer than `n`.
proof fn lemma_rows_fit(rows: Seq<Row>, n: int, j: int)
    requires
        0 <= j < n,
        forall|t: int| 0 <= t < rows.len() ==> (#[trigger] rows[t]).index < n && rows[t].index != j,
        forall|a: int, b: int| 0 <= a < b < rows.len() ==> (#[trigger] rows[a]).index != (#[trigger] rows[b]).index,
    ensures
        rows.len() < n,
{
    let idx = rows.map_values(|r: Row| r.index as int).push(j);
    assert(idx.no_duplicates()) by {
        assert forall|a: int, b: int| 0 <= a < idx.len() && 0 <= b < idx.len() && a != b implies idx[a] != idx[b] by {
            if a < rows.len() && b < rows.len() {
                if a < b {
                    assert(rows[a].index != rows[b].index);
                } else {
                    assert(rows[b].index != rows[a].index);
                }
            } else if a < rows.len() {
                assert(rows[a].index != j);
            } else if b < rows.len() {
                assert(rows[b].index != j);
            }
        }
    }
    idx.unique_seq_to_set();
    vstd::set_lib::lemma_int_range(0, n);
    assert(idx.to_set().subset_of(vstd::set_lib::set_int_range(0, n))) by {
        assert forall|v: int| idx.to_set().contains(v) implies vstd::set_lib::set_int_range(0, n).contains(v) by {
            let t = choose|t: int| 0 <= t < idx.len() && idx[t] == v;
            if t < rows.len() {
                assert(rows[t].index < n);
            }
        }
    }
    vstd::set_lib::lemma_len_subset(idx.to_set(), vstd::set_lib::set_int_range(0, n));
}

/// Appends `(j, depth)` for each entry `j` that entry `x` relates to in
/// direction `d`, in link order.
fn push_related(entries: &[ListEntry], x: usize, d: Direction, depth: usize, queue: &mut Vec<(usize, usize)>)
    requires
        x < entries@.len(),
    ensures
        final(queue)@.len() >= old(queue)@.len(),
        forall|k: int| 0 <= k < old(queue)@.len() ==> #[trigger] final(queue)@[k] == old(queue)@[k],
        forall|k: int| old(queue)@.len() <= k < final(queue)@.len() ==> (#[trigger] final(queue)@[k]).1 == depth
            && final(queue)@[k].0 < entries@.len() && steps(entries@, d, x as int, final(queue)@[k].0 as int),
        forall|j: int| #[trigger] steps(entries@, d, x as int, j) ==> exists|k: int|
            old(queue)@.len() <= k < final(queue)@.len() && #[trigger] final(queue)@[k] == (j as usize, depth),
{
    let e = &entries[x];
    let links = match d {
        Direction::Up => &e.parents,
        Direction::Down => &e.children,
        Direction::Neutral => {
            proof {
                assert forall|j: int| #[trigger] steps(entries@, d, x as int, j) implies false by {}
            }
            return;
        },
    };
    let ghost start = queue@.len();
    let ghost rel = related(entries@[x as int], d);
    let mut k: usize = 0;
    while k < links.len()
        invariant
            x < entries@.len(),
            rel == related(entries@[x as int], d),
            rel == ref_uuids(links@),
            start <= queue@.len(),
            k <= links@.len(),
            forall|t: int| 0 <= t < start ==> #[trigger] queue@[t] == old(queue)@[t],
            start == old(queue)@.len(),
            forall|t: int| start <= t < queue@.len() ==> (#[trigger] queue@[t]).1 == depth && queue@[t].0 < entries@.len()
                && steps(entries@, d, x as int, queue@[t].0 as int),
            forall|q: int| 0 <= q < k && (#[trigger] position_of(entries@, rel[q])) is Some ==> exists|t: int|
                start <= t < queue@.len() && #[trigger] queue@[t] == ((position_of(entries@, rel[q])->Some_0) as usize, depth),
        decreases links@.len() - k,
    {
        let u = links[k].uuid;
        let ghost before = queue@;
        match find_position(entries, u) {
            Some(p) => {
                proof {
                    lemma_position_of(entries@, u);
                    assert(rel[k as int] == u);
                    assert(steps(entries@, d, x as int, p as int));
                }
                queue.push((p, depth));
                proof {
                    assert(queue@[queue@.len() - 1] == (p, depth));
                }
            },
            None => {},
        }
        proof {
            assert forall|q: int| 0 <= q < k + 1 && (#[trigger] position_of(entries@, rel[q])) is Some implies exists|t: int|
                start <= t < queue@.len() && #[trigger] queue@[t] == ((position_of(entries@, rel[q])->Some_0) as usize, depth) by {
                if q < k {
                    let t = choose|t: int| start <= t < before.len() && #[trigger] before[t] == ((position_of(entries@, rel[q])->Some_0) as usize, depth);
                    assert(queue@[t] == before[t]);
                } else {
                    assert(rel[q] == u);
                    assert(queue@[queue@.len() - 1] == ((position_of(entries@, rel[q])->Some_0) as usize, depth));
                }
            }
        }
        k = k + 1;
    }
    proof {
        assert forall|j: int| #[trigger] steps(entries@, d, x as int, j) implies exists|t: int|
            start <= t < queue@.len() && #[trigger] queue@[t] == (j as usize, depth) by {
            let q = choose|q: int| 0 <= q < rel.len() && #[trigger] position_of(entries@, rel[q]) == Some(j);
            lemma_position_of(entries@, rel[q]);
        }
    }
}

/// `m` steps still allow one more (`usize::MAX` is no limit).
pub open spec fn below_limit(limit: usize, m: int) -> bool {
    limit == usize::MAX || m < limit
}

proof fn lemma_within_bounds(entries: Seq<ListEntry>, seeds: Seq<usize>, d: Direction, m: nat, j: int)
    requires
        within(entries, seeds, d, m).contains(j),
    ensures
        0 <= j < entries.len(),
    decreases m,
{
    let w = within(entries, seeds, d, (m - 1) as nat);
    if w.contains(j) {
        lemma_within_bounds(entries, seeds, d, (m - 1) as nat, j);
    } else if seed_step(entries, seeds, d, j) {
        let s = choose|s: int| 0 <= s < seeds.len() && #[trigger] steps(entries, d, seeds[s] as int, j);
        let k = choose|k: int| 0 <= k < related(entries[seeds[s] as int], d).len()
            && #[trigger] position_of(entries, related(entries[seeds[s] as int], d)[k]) == Some(j);
        lemma_position_of(entries, related(entries[seeds[s] as int], d)[k]);
    } else {
        let x = choose|x: int| w.contains(x) && #[trigger] steps(entries, d, x, j);
        let k = choose|k: int| 0 <= k < related(entries[x], d).len() && #[trigger] position_of(entries, related(entries[x], d)[k])
            == Some(j);
        lemma_position_of(entries, related(entries[x], d)[k]);
    }
}

/// The state of the breadth-first walk: the queue `q` of (entry, steps)
/// pairs with the first `h` taken, the rows found, and which entries were
/// seen.
pub open spec fn walk_state(
    entries: Seq<ListEntry>,
    seeds: Seq<usize>,
    d: Direction,
    limit: usize,
    q: Seq<(usize, usize)>,
    h: int,
    rows: Seq<Row>,
    seen: Seq<bool>,
) -> bool {
    let n = entries.len();
    &&& n < usize::MAX
    &&& seen.len() == n
    &&& 0 <= h <= q.len()
    &&& rows.len() <= n
    &&& forall|k: int| 0 <= k < q.len() ==> (#[trigger] q[k]).0 < n && q[k].1 >= 1 && within(entries, seeds, d, q[k].1 as nat).contains(q[k].0 as int)
    &&& forall|t: int| 0 <= t < rows.len() ==> (#[trigger] rows[t]).direction == d && rows[t].index < n
        && at_distance(entries, seeds, d, rows[t].index as int, rows[t].depth as nat) && allowed(limit, rows[t].depth as int)
    &&& forall|a: int, b: int| 0 <= a < b < rows.len() ==> (#[trigger] rows[a]).index != (#[trigger] rows[b]).index
    &&& forall|a: int, b: int| 0 <= a < b < rows.len() ==> (#[trigger] rows[a]).depth <= (#[trigger] rows[b]).depth
    &&& forall|i: int| 0 <= i < n ==> (#[trigger] seen[i] <==> exists|t: int| 0 <= t < rows.len() && #[trigger] rows[t].index == i)
    &&& forall|a: int, b: int| h <= a < b < q.len() ==> (#[trigger] q[a]).1 <= (#[trigger] q[b]).1
    &&& rows.len() > 0 ==> forall|k: int| h <= k < q.len() ==> rows.last().depth <= (#[trigger] q[k]).1
    &&& forall|k: int| h <= k < q.len() ==> (#[trigger] q[k]).1 <= q[h].1 + 1
    &&& forall|k: int| h <= k < q.len() ==> (#[trigger] q[k]).1 <= rows.len() + 1
    &&& forall|j: int| #[trigger] seed_step(entries, seeds, d, j) ==> exists|k: int| 0 <= k < q.len() && #[trigger] q[k] == (j as usize, 1usize)
    &&& forall|t: int, j: int| 0 <= t < rows.len() && below_limit(limit, rows[t].depth as int)
        && #[trigger] steps(entries, d, (#[trigger] rows[t]).index as int, j) ==> exists|k: int| 0 <= k < q.len() && #[trigger] q[k]
        == (j as usize, (rows[t].depth + 1) as usize)
    &&& forall|k: int| 0 <= k < h ==> seen[(#[trigger] q[k]).0 as int] || !allowed(limit, q[k].1 as int)
}

/// Every entry fewer than `f` steps away (within the limit) has been seen
/// once nothing waiting in the queue is fewer than `f` steps away.
proof fn lemma_walk_closed(
    entries: Seq<ListEntry>,
    seeds: Seq<usize>,
    d: Direction,
    limit: usize,
    q: Seq<(usize, usize)>,
    h: int,
    rows: Seq<Row>,
    seen: Seq<bool>,
    f: int,
    m: nat,
    j: int,
)
    requires
        walk_state(entries, seeds, d, limit, q, h, rows, seen),
        forall|k: int| h <= k < q.len() ==> (#[trigger] q[k]).1 >= f,
        1 <= m < f,
        allowed(limit, m as int),
        at_distance(entries, seeds, d, j, m),
    ensures
        0 <= j < entries.len(),
        seen[j],
    decreases m,
{
    lemma_within_bounds(entries, seeds, d, m, j);
    if m == 1 {
        assert(within(entries, seeds, d, 0) =~= Set::<int>::empty());
        assert(seed_step(entries, seeds, d, j));
        let k = choose|k: int| 0 <= k < q.len() && #[trigger] q[k] == (j as usize, 1usize);
        assert(q[k].0 as int == j);
    } else {
        lemma_predecessor(entries, seeds, d, j, m);
        let x = choose|x: int| #[trigger] at_distance(entries, seeds, d, x, (m - 1) as nat) && steps(entries, d, x, j);
        lemma_walk_closed(entries, seeds, d, limit, q, h, rows, seen, f, (m - 1) as nat, x);
        let t = choose|t: int| 0 <= t < rows.len() && #[trigger] rows[t].index == x;
        assert(rows[t].index == x);
        lemma_distance_unique(entries, seeds, d, x, rows[t].depth as nat, (m - 1) as nat);
        assert(below_limit(limit, rows[t].depth as int));
        assert(steps(entries, d, rows[t].index as int, j));
        let k = choose|k: int| 0 <= k < q.len() && #[trigger] q[k] == (j as usize, (rows[t].depth + 1) as usize);
        assert(q[k].0 as int == j);
    }
}

proof fn lemma_walk_skip(
    entries: Seq<ListEntry>,
    seeds: Seq<usize>,
    d: Direction,
    limit: usize,
    q: Seq<(usize, usize)>,
    h: int,
    rows: Seq<Row>,
    seen: Seq<bool>,
)
    requires
        walk_state(entries, seeds, d, limit, q, h, rows, seen),
        h < q.len(),
        seen[q[h].0 as int] || !allowed(limit, q[h].1 as int),
    ensures
        walk_state(entries, seeds, d, limit, q, h + 1, rows, seen),
{
    if h + 1 < q.len() {
        assert forall|k: int| h + 1 <= k < q.len() implies (#[trigger] q[k]).1 <= q[h + 1].1 + 1 by {
            assert(q[k].1 <= q[h].1 + 1);
            assert(q[h].1 <= q[h + 1].1);
        }
    }
    assert forall|k: int| 0 <= k < h + 1 implies seen[(#[trigger] q[k]).0 as int] || !allowed(limit, q[k].1 as int) by {}
}

proof fn lemma_walk_fit(
    entries: Seq<ListEntry>,
    seeds: Seq<usize>,
    d: Direction,
    limit: usize,
    q: Seq<(usize, usize)>,
    h: int,
    rows: Seq<Row>,
    seen: Seq<bool>,
)
    requires
        walk_state(entries, seeds, d, limit, q, h, rows, seen),
        h < q.len(),
        !seen[q[h].0 as int],
    ensures
        rows.len() < entries.len(),
        q[h].1 <= rows.len() + 1,
{
    let n = entries.len();
    let j = q[h].0;
    assert forall|t: int| 0 <= t < rows.len() implies (#[trigger] rows[t]).index < n && rows[t].index != j by {
        if rows[t].index == j {
            assert(seen[j as int]);
        }
    }
    lemma_rows_fit(rows, n as int, j as int);
}

proof fn lemma_walk_add(
    entries: Seq<ListEntry>,
    seeds: Seq<usize>,
    d: Direction,
    limit: usize,
    q: Seq<(usize, usize)>,
    q2: Seq<(usize, usize)>,
    h: int,
    rows: Seq<Row>,
    seen: Seq<bool>,
)
    requires
        walk_state(entries, seeds, d, limit, q, h, rows, seen),
        h < q.len(),
        !seen[q[h].0 as int],
        allowed(limit, q[h].1 as int),
        q2.len() >= q.len(),
        forall|k: int| 0 <= k < q.len() ==> #[trigger] q2[k] == q[k],
        forall|k: int| q.len() <= k < q2.len() ==> (#[trigger] q2[k]).1 == q[h].1 + 1 && q2[k].0 < entries.len()
            && steps(entries, d, q[h].0 as int, q2[k].0 as int),
        below_limit(limit, q[h].1 as int) ==> forall|j: int| #[trigger] steps(entries, d, q[h].0 as int, j) ==> exists|k: int|
            q.len() <= k < q2.len() && #[trigger] q2[k] == (j as usize, (q[h].1 + 1) as usize),
        !below_limit(limit, q[h].1 as int) ==> q2.len() == q.len(),
    ensures
        rows.len() < entries.len(),
        q[h].1 <= rows.len() + 1,
        walk_state(
            entries,
            seeds,
            d,
            limit,
            q2,
            h + 1,
            rows.push(Row { index: q[h].0, direction: d, depth: q[h].1 }),
            seen.update(q[h].0 as int, true),
        ),
{
    let n = entries.len();
    let j = q[h].0;
    let dep = q[h].1;
    let row = Row { index: j, direction: d, depth: dep };
    let rows2 = rows.push(row);
    let seen2 = seen.update(j as int, true);
    // The entry was not among the rows.
    assert forall|t: int| 0 <= t < rows.len() implies (#[trigger] rows[t]).index < n && rows[t].index != j by {
        if rows[t].index == j {
            assert(seen[j as int]);
        }
    }
    lemma_rows_fit(rows, n as int, j as int);
    // It is exactly `dep` steps away.
    assert(within(entries, seeds, d, dep as nat).contains(j as int));
    if within(entries, seeds, d, (dep - 1) as nat).contains(j as int) {
        lemma_distance_exists(entries, seeds, d, j as int, (dep - 1) as nat);
        let e = choose|e: nat| 1 <= e <= dep - 1 && #[trigger] at_distance(entries, seeds, d, j as int, e);
        assert forall|k: int| h <= k < q.len() implies (#[trigger] q[k]).1 >= dep by {
            if k > h {
                assert(q[h].1 <= q[k].1);
            }
        }
        lemma_walk_closed(entries, seeds, d, limit, q, h, rows, seen, dep as int, e, j as int);
    }
    assert(at_distance(entries, seeds, d, j as int, dep as nat));
    // The queue entries.
    assert forall|k: int| 0 <= k < q2.len() implies (#[trigger] q2[k]).0 < n && q2[k].1 >= 1 && within(
        entries,
        seeds,
        d,
        q2[k].1 as nat,
    ).contains(q2[k].0 as int) by {
        if k >= q.len() {
            assert(steps(entries, d, j as int, q2[k].0 as int));
            assert(within(entries, seeds, d, (dep + 1) as nat).contains(q2[k].0 as int));
        } else {
            assert(q2[k] == q[k]);
        }
    }
    // The rows.
    assert forall|t: int| 0 <= t < rows2.len() implies (#[trigger] rows2[t]).direction == d && rows2[t].index < n
        && at_distance(entries, seeds, d, rows2[t].index as int, rows2[t].depth as nat) && allowed(limit, rows2[t].depth as int) by {
        if t < rows.len() {
            assert(rows2[t] == rows[t]);
        }
    }
    assert forall|a: int, b: int| 0 <= a < b < rows2.len() implies (#[trigger] rows2[a]).index != (#[trigger] rows2[b]).index by {
        if b < rows.len() {
            assert(rows2[a] == rows[a] && rows2[b] == rows[b]);
        } else {
            assert(rows2[a] == rows[a]);
        }
    }
    assert forall|a: int, b: int| 0 <= a < b < rows2.len() implies (#[trigger] rows2[a]).depth <= (#[trigger] rows2[b]).depth by {
        if b < rows.len() {
            assert(rows2[a] == rows[a] && rows2[b] == rows[b]);
        } else {
            assert(rows2[a] == rows[a]);
            assert(rows.last().depth <= q[h].1);
            if a < rows.len() - 1 {
                assert(rows[a].depth <= rows[rows.len() - 1].depth);
            }
        }
    }
    assert forall|i: int| 0 <= i < n implies (#[trigger] seen2[i] <==> exists|t: int| 0 <= t < rows2.len() && #[trigger] rows2[t].index == i) by {
        if i == j {
            assert(rows2[rows.len() as int].index == j);
        } else {
            if seen2[i] {
                let t = choose|t: int| 0 <= t < rows.len() && #[trigger] rows[t].index == i;
                assert(rows2[t] == rows[t]);
            }
            if exists|t: int| 0 <= t < rows2.len() && #[trigger] rows2[t].index == i {
                let t = choose|t: int| 0 <= t < rows2.len() && #[trigger] rows2[t].index == i;
                assert(t < rows.len());
                assert(rows2[t] == rows[t]);
            }
        }
    }
    // The waiting part of the queue.
    assert forall|a: int, b: int| h + 1 <= a < b < q2.len() implies (#[trigger] q2[a]).1 <= (#[trigger] q2[b]).1 by {
        if b < q.len() {
            assert(q2[a] == q[a] && q2[b] == q[b]);
        } else if a < q.len() {
            assert(q2[a] == q[a]);
            assert(q[a].1 <= q[h].1 + 1);
        }
    }
    assert forall|k: int| h + 1 <= k < q2.len() implies rows2.last().depth <= (#[trigger] q2[k]).1 by {
        if k < q.len() {
            assert(q2[k] == q[k]);
            assert(q[h].1 <= q[k].1);
        }
    }
    if h + 1 < q2.len() {
        assert forall|k: int| h + 1 <= k < q2.len() implies (#[trigger] q2[k]).1 <= q2[h + 1].1 + 1 by {
            if h + 1 < q.len() {
                assert(q2[h + 1] == q[h + 1]);
                assert(q[h].1 <= q[h + 1].1);
                if k < q.len() {
                    assert(q2[k] == q[k]);
                    assert(q[k].1 <= q[h].1 + 1);
                }
            } else {
                assert(q2[h + 1].1 == q[h].1 + 1);
            }
        }
    }
    assert forall|k: int| h + 1 <= k < q2.len() implies (#[trigger] q2[k]).1 <= rows2.len() + 1 by {
        if k < q.len() {
            assert(q2[k] == q[k]);
        }
    }
    assert forall|jj: int| #[trigger] seed_step(entries, seeds, d, jj) implies exists|k: int| 0 <= k < q2.len() && #[trigger] q2[k]
        == (jj as usize, 1usize) by {
        let k = choose|k: int| 0 <= k < q.len() && #[trigger] q[k] == (jj as usize, 1usize);
        assert(q2[k] == q[k]);
    }
    assert forall|t: int, jj: int| 0 <= t < rows2.len() && below_limit(limit, rows2[t].depth as int)
        && #[trigger] steps(entries, d, (#[trigger] rows2[t]).index as int, jj) implies exists|k: int| 0 <= k < q2.len()
        && #[trigger] q2[k] == (jj as usize, (rows2[t].depth + 1) as usize) by {
        if t < rows.len() {
            assert(rows2[t] == rows[t]);
            assert(steps(entries, d, rows[t].index as int, jj));
            let k = choose|k: int| 0 <= k < q.len() && #[trigger] q[k] == (jj as usize, (rows[t].depth + 1) as usize);
            assert(q2[k] == q[k]);
        } else {
            assert(rows2[t] == row);
            let k = choose|k: int| q.len() <= k < q2.len() && #[trigger] q2[k] == (jj as usize, (q[h].1 + 1) as usize);
        }
    }
    assert forall|k: int| 0 <= k < h + 1 implies seen2[(#[trigger] q2[k]).0 as int] || !allowed(limit, q2[k].1 as int) by {
        assert(q2[k] == q[k]);
        if k < h {
            if seen[q[k].0 as int] {
                assert(seen2[q[k].0 as int]);
            }
        }
    }
}

/// The entries reached from the seeds by following links in one direction,
/// breadth first: each once, at its fewest number of steps (at least one),
/// up to `limit` steps (`usize::MAX` for no limit), in order of steps.
pub open spec fn walked(entries: Seq<ListEntry>, seeds: Seq<usize>, d: Direction, limit: usize, rows: Seq<Row>) -> bool {
    &&& forall|t: int| 0 <= t < rows.len() ==> (#[trigger] rows[t]).direction == d && rows[t].index < entries.len()
        && at_distance(entries, seeds, d, rows[t].index as int, rows[t].depth as nat) && allowed(limit, rows[t].depth as int)
    &&& forall|a: int, b: int| 0 <= a < b < rows.len() ==> (#[trigger] rows[a]).index != (#[trigger] rows[b]).index
    &&& forall|a: int, b: int| 0 <= a < b < rows.len() ==> (#[trigger] rows[a]).depth <= (#[trigger] rows[b]).depth
    &&& forall|j: int, m: nat| 1 <= m && allowed(limit, m as int) && #[trigger] within(entries, seeds, d, m).contains(j) ==> exists|t: int|
        0 <= t < rows.len() && #[trigger] rows[t].index == j
}

/// Walks the links from the seeds breadth first in one direction, up to
/// `limit` steps (`usize::MAX` for no limit).
pub fn traverse(seeds: &[usize], entries: &[ListEntry], limit: usize, direction: Direction) -> (r: Vec<Row>)
    requires
        forall|s: int| 0 <= s < seeds@.len() ==> #[trigger] seeds@[s] < entries@.len(),
        entries@.len() < usize::MAX,
    ensures
        walked(entries@, seeds@, direction, limit, r@),
{
    let n = entries.len();
    let mut seen: Vec<bool> = Vec::new();
    while seen.len() < n
        invariant
            seen@.len() <= n,
            forall|i: int| 0 <= i < seen@.len() ==> !#[trigger] seen@[i],
        decreases n - seen@.len(),
    {
        seen.push(false);
    }
    let mut queue: Vec<(usize, usize)> = Vec::new();
    let mut s: usize = 0;
    while s < seeds.len()
        invariant
            n == entries@.len(),
            forall|s: int| 0 <= s < seeds@.len() ==> #[trigger] seeds@[s] < entries@.len(),
            s <= seeds@.len(),
            forall|k: int| 0 <= k < queue@.len() ==> (#[trigger] queue@[k]).1 == 1 && queue@[k].0 < n
                && seed_step(entries@, seeds@, direction, queue@[k].0 as int),
            forall|t: int, j: int| 0 <= t < s && #[trigger] steps(entries@, direction, seeds@[t] as int, j) ==> exists|k: int|
                0 <= k < queue@.len() && #[trigger] queue@[k] == (j as usize, 1usize),
        decreases seeds@.len() - s,
    {
        let ghost before = queue@;
        push_related(entries, seeds[s], direction, 1, &mut queue);
        proof {
            assert forall|k: int| 0 <= k < queue@.len() implies (#[trigger] queue@[k]).1 == 1 && queue@[k].0 < n
                && seed_step(entries@, seeds@, direction, queue@[k].0 as int) by {
                if k >= before.len() {
                    assert(steps(entries@, direction, seeds@[s as int] as int, queue@[k].0 as int));
                } else {
                    assert(queue@[k] == before[k]);
                }
            }
            assert forall|t: int, j: int| 0 <= t < s + 1 && #[trigger] steps(entries@, direction, seeds@[t] as int, j) implies exists|k: int|
                0 <= k < queue@.len() && #[trigger] queue@[k] == (j as usize, 1usize) by {
                if t < s {
                    let k = choose|k: int| 0 <= k < before.len() && #[trigger] before[k] == (j as usize, 1usize);
                    assert(queue@[k] == before[k]);
                }
            }
        }
        s = s + 1;
    }
    let mut rows: Vec<Row> = Vec::new();
    let mut h: usize = 0;
    proof {
        assert forall|k: int| 0 <= k < queue@.len() implies within(entries@, seeds@, direction, (#[trigger] queue@[k]).1 as nat).contains(
            queue@[k].0 as int,
        ) by {
            assert(within(entries@, seeds@, direction, 1).contains(queue@[k].0 as int));
        }
        assert forall|j: int| #[trigger] seed_step(entries@, seeds@, direction, j) implies exists|k: int| 0 <= k < queue@.len()
            && #[trigger] queue@[k] == (j as usize, 1usize) by {
            let t = choose|t: int| 0 <= t < seeds@.len() && #[trigger] steps(entries@, direction, seeds@[t] as int, j);
        }
        assert(walk_state(entries@, seeds@, direction, limit, queue@, 0, rows@, seen@));
    }
    while h < queue.len()
        invariant
            forall|s: int| 0 <= s < seeds@.len() ==> #[trigger] seeds@[s] < entries@.len(),
            n == entries@.len(),
            walk_state(entries@, seeds@, direction, limit, queue@, h as int, rows@, seen@),
        decreases n - rows@.len(), queue@.len() - h,
    {
        let (j, dep) = queue[h];
        if limit != usize::MAX && dep > limit {
            proof {
                lemma_walk_skip(entries@, seeds@, direction, limit, queue@, h as int, rows@, seen@);
            }
            h = h + 1;
            continue;
        }
        if seen[j] {
            proof {
                lemma_walk_skip(entries@, seeds@, direction, limit, queue@, h as int, rows@, seen@);
            }
            h = h + 1;
            continue;
        }
        let ghost q0 = queue@;
        let ghost rows0 = rows@;
        let ghost seen0 = seen@;
        let ghost h0 = h as int;
        if limit != usize::MAX && dep == limit {
            proof {
                lemma_walk_add(entries@, seeds@, direction, limit, q0, q0, h0, rows0, seen0);
            }
        } else {
            proof {
                lemma_walk_fit(entries@, seeds@, direction, limit, q0, h0, rows0, seen0);
                assert(dep < usize::MAX);
            }
            push_related(entries, j, direction, dep + 1, &mut queue);
            proof {
                lemma_walk_add(entries@, seeds@, direction, limit, q0, queue@, h0, rows0, seen0);
            }
        }
        seen.set(j, true);
        rows.push(Row { index: j, direction, depth: dep });
        h = h + 1;
    }
    proof {
        assert forall|j: int, m: nat| 1 <= m && allowed(limit, m as int) && #[trigger] within(entries@, seeds@, direction, m).contains(j)
            implies exists|t: int| 0 <= t < rows@.len() && #[trigger] rows@[t].index == j by {
            lemma_distance_exists(entries@, seeds@, direction, j, m);
            let e = choose|e: nat| 1 <= e <= m && #[trigger] at_distance(entries@, seeds@, direction, j, e);
            lemma_walk_closed(entries@, seeds@, direction, limit, queue@, h as int, rows@, seen@, (e + 1) as int, e, j);
        }
    }
    rows
}

/// The rows that pass the filters, in order.
pub open spec fn passing(f: &Filters, entries: Seq<ListEntry>, hits: Seq<bool>, rows: Seq<Row>) -> Seq<Row>
    decreases rows.len(),
{
    if rows.len() == 0 {
        Seq::empty()
    } else {
        let prev = passing(f, entries, hits, rows.drop_last());
        if passes(f, entries, hits, rows.last().index as int) {
            prev.push(rows.last())
        } else {
            prev
        }
    }
}

/// The rows of `rows` that pass the filters.
fn keep_passing(f: &Filters, entries: &[ListEntry], hits: &[bool], rows: Vec<Row>) -> (r: Vec<Row>)
    requires
        hits@.len() == entries@.len(),
        forall|t: int| 0 <= t < rows@.len() ==> (#[trigger] rows@[t]).index < entries@.len(),
    ensures
        r@ == passing(f, entries@, hits@, rows@),
        forall|t: int| 0 <= t < r@.len() ==> (#[trigger] r@[t]).index < entries@.len(),
{
    let mut r: Vec<Row> = Vec::new();
    let mut t: usize = 0;
    while t < rows.len()
        invariant
            hits@.len() == entries@.len(),
            forall|t: int| 0 <= t < rows@.len() ==> (#[trigger] rows@[t]).index < entries@.len(),
            forall|u: int| 0 <= u < r@.len() ==> (#[trigger] r@[u]).index < entries@.len(),
            t <= rows@.len(),
            r@ == passing(f, entries@, hits@, rows@.take(t as int)),
        decreases rows@.len() - t,
    {
        let row = rows[t];
        proof {
            assert(rows@.take(t + 1).drop_last() =~= rows@.take(t as int));
        }
        if f.admits_with(&entries[row.index], hits[row.index]) {
            r.push(row);
        }
        t = t + 1;
    }
    proof {
        assert(rows@.take(t as int) =~= rows@);
    }
    r
}

/// The direction a relationship view walks.
pub open spec fn view_direction(v: ListingView) -> Direction {
    match v {
        ListingView::Parents | ListingView::Ancestors => Direction::Up,
        _ => Direction::Down,
    }
}

/// The depth a relationship view walks when none is given.
pub open spec fn view_default_depth(v: ListingView) -> usize {
    match v {
        ListingView::Parents | ListingView::Children => 1,
        _ => usize::MAX,
    }
}

/// The depth limit asked for, with zero for no limit.
pub open spec fn depth_limit(depth: Option<usize>, default: usize) -> usize {
    match depth {
        None => default,
        Some(v) => if v == 0 {
            usize::MAX
        } else {
            v
        },
    }
}

/// The rows of a relationship view (parents, children, ancestors or
/// descendants): the relatives of the targets, breadth first, that pass the
/// filters.
pub fn produce_direction_rows(
    view: ListingView,
    entries: &[ListEntry],
    filters: &Filters,
    hits: &[bool],
    targets: &[usize],
    depth: Option<usize>,
) -> (r: Vec<Row>)
    requires
        view == ListingView::Parents || view == ListingView::Children || view == ListingView::Ancestors || view
            == ListingView::Descendants,
        hits@.len() == entries@.len(),
        entries@.len() < usize::MAX,
        forall|k: int| 0 <= k < targets@.len() ==> #[trigger] targets@[k] < entries@.len(),
    ensures
        forall|t: int| 0 <= t < r@.len() ==> (#[trigger] r@[t]).index < entries@.len(),
        exists|walk: Seq<Row>|
            walked(entries@, targets@, view_direction(view), depth_limit(depth, view_default_depth(view)), walk)
                && r@ == #[trigger] passing(filters, entries@, hits@, walk),
{
    let direction = match view {
        ListingView::Parents | ListingView::Ancestors => Direction::Up,
        _ => Direction::Down,
    };
    let default_depth: usize = match view {
        ListingView::Parents | ListingView::Children => 1,
        _ => usize::MAX,
    };
    let limit = resolve_depth(depth, default_depth);
    let rows = traverse(targets, entries, limit, direction);
    let r = keep_passing(filters, entries, hits, rows);
    proof {
        assert(walked(entries@, targets@, view_direction(view), depth_limit(depth, view_default_depth(view)), rows@));
    }
    r
}

/// The rows of `cands` whose entries are neither in `existing` nor earlier
/// among the kept ones.
pub open spec fn added_rows(existing: Set<usize>, cands: Seq<Row>) -> Seq<Row>
    decreases cands.len(),
{
    if cands.len() == 0 {
        Seq::empty()
    } else {
        let prev = added_rows(existing, cands.drop_last());
        let c = cands.last();
        if existing.contains(c.index) || exists|t: int| 0 <= t < prev.len() && #[trigger] prev[t].index == c.index {
            prev
        } else {
            prev.push(c)
        }
    }
}

/// The rows' entry positions.
pub open spec fn row_indices(rows: Seq<Row>) -> Set<usize> {
    rows.map_values(|r: Row| r.index).to_set()
}

/// The walks up and down from each row, one after the other.
pub open spec fn context_walks(ups: Seq<Seq<Row>>, downs: Seq<Seq<Row>>, n: int) -> Seq<Row>
    decreases n,
{
    if n <= 0 {
        Seq::empty()
    } else {
        context_walks(ups, downs, n - 1) + ups[n - 1] + downs[n - 1]
    }
}

fn index_among(rows: &Vec<Row>, i: usize) -> (r: bool)
    ensures
        r == exists|t: int| 0 <= t < rows@.len() && #[trigger] rows@[t].index == i,
{
    let mut t: usize = 0;
    while t < rows.len()
        invariant
            t <= rows@.len(),
            forall|u: int| 0 <= u < t ==> #[trigger] rows@[u].index != i,
        decreases rows@.len() - t,
    {
        if rows[t].index == i {
            return true;
        }
        t = t + 1;
    }
    false
}

/// The rows followed by their relatives up to `depth` steps up and down
/// that are not rows already, each once (`depth` zero adds none).
pub fn augment_with_context(entries: &[ListEntry], rows: Vec<Row>, depth: usize) -> (r: Vec<Row>)
    requires
        entries@.len() < usize::MAX,
        forall|t: int| 0 <= t < rows@.len() ==> (#[trigger] rows@[t]).index < entries@.len(),
    ensures
        forall|t: int| 0 <= t < r@.len() ==> (#[trigger] r@[t]).index < entries@.len(),
        depth == 0 ==> r@ == rows@,
        depth > 0 ==> exists|ups: Seq<Seq<Row>>, downs: Seq<Seq<Row>>| {
            &&& ups.len() == rows@.len()
            &&& downs.len() == rows@.len()
            &&& forall|t: int| 0 <= t < rows@.len() ==> walked(entries@, seq![rows@[t].index], Direction::Up, depth, #[trigger] ups[t])
            &&& forall|t: int| 0 <= t < rows@.len() ==> walked(entries@, seq![rows@[t].index], Direction::Down, depth, #[trigger] downs[t])
            &&& r@ == rows@ + added_rows(row_indices(rows@), context_walks(ups, downs, rows@.len() as int))
        },
{
    if depth == 0 {
        return rows;
    }
    let ghost existing = row_indices(rows@);
    let mut additional: Vec<Row> = Vec::new();
    let ghost mut ups: Seq<Seq<Row>> = Seq::empty();
    let ghost mut downs: Seq<Seq<Row>> = Seq::empty();
    let mut t: usize = 0;
    while t < rows.len()
        invariant
            entries@.len() < usize::MAX,
            forall|t: int| 0 <= t < rows@.len() ==> (#[trigger] rows@[t]).index < entries@.len(),
            existing == row_indices(rows@),
            t <= rows@.len(),
            ups.len() == t,
            downs.len() == t,
            forall|u: int| 0 <= u < t ==> walked(entries@, seq![rows@[u].index], Direction::Up, depth, #[trigger] ups[u]),
            forall|u: int| 0 <= u < t ==> walked(entries@, seq![rows@[u].index], Direction::Down, depth, #[trigger] downs[u]),
            additional@ == added_rows(existing, context_walks(ups, downs, t as int)),
            forall|u: int| 0 <= u < additional@.len() ==> (#[trigger] additional@[u]).index < entries@.len(),
        decreases rows@.len() - t,
    {
        let seed: Vec<usize> = vec![rows[t].index];
        proof {
            assert(seed@ =~= seq![rows@[t as int].index]);
        }
        let up = traverse(seed.as_slice(), entries, depth, Direction::Up);
        let down = traverse(seed.as_slice(), entries, depth, Direction::Down);
        let ghost base = context_walks(ups, downs, t as int);
        let ghost ups0 = ups;
        let ghost downs0 = downs;
        proof {
            ups = ups.push(up@);
            downs = downs.push(down@);
            lemma_context_walks_prefix(ups, downs, ups0, downs0, t as int);
            assert(context_walks(ups, downs, t + 1) =~= base + up@ + down@);
        }
        add_unseen(&rows, &mut additional, &up, Ghost(base), Ghost(entries@.len()));
        add_unseen(&rows, &mut additional, &down, Ghost(base + up@), Ghost(entries@.len()));
        proof {
            assert(base + up@ + down@ =~= (base + up@) + down@);
        }
        t = t + 1;
    }
    let mut r = rows;
    let ghost rv = r@;
    let mut k: usize = 0;
    while k < additional.len()
        invariant
            k <= additional@.len(),
            r@ == rv + additional@.take(k as int),
            forall|u: int| 0 <= u < rv.len() ==> (#[trigger] rv[u]).index < entries@.len(),
            forall|u: int| 0 <= u < additional@.len() ==> (#[trigger] additional@[u]).index < entries@.len(),
        decreases additional@.len() - k,
    {
        r.push(additional[k]);
        proof {
            assert(additional@.take(k + 1) =~= additional@.take(k as int).push(additional@[k as int]));
        }
        k = k + 1;
    }
    proof {
        assert(additional@.take(k as int) =~= additional@);
        assert forall|u: int| 0 <= u < r@.len() implies (#[trigger] r@[u]).index < entries@.len() by {
            if u >= rv.len() {
                assert(r@[u] == additional@[u - rv.len()]);
            } else {
                assert(r@[u] == rv[u]);
            }
        }
    }
    r
}

/// Appends to `additional` each candidate whose entry is neither a row nor
/// already added.
fn add_unseen(rows: &Vec<Row>, additional: &mut Vec<Row>, cands: &Vec<Row>, Ghost(before): Ghost<Seq<Row>>, Ghost(n): Ghost<nat>)
    requires
        old(additional)@ == added_rows(row_indices(rows@), before),
        forall|t: int| 0 <= t < old(additional)@.len() ==> (#[trigger] old(additional)@[t]).index < n,
        forall|t: int| 0 <= t < cands@.len() ==> (#[trigger] cands@[t]).index < n,
    ensures
        final(additional)@ == added_rows(row_indices(rows@), before + cands@),
        forall|t: int| 0 <= t < final(additional)@.len() ==> (#[trigger] final(additional)@[t]).index < n,
{
    let ghost existing = row_indices(rows@);
    let ghost ix = rows@.map_values(|r: Row| r.index);
    let mut k: usize = 0;
    proof {
        assert(before + cands@.take(0) =~= before);
    }
    while k < cands.len()
        invariant
            existing == row_indices(rows@),
            ix == rows@.map_values(|r: Row| r.index),
            k <= cands@.len(),
            additional@ == added_rows(existing, before + cands@.take(k as int)),
            forall|t: int| 0 <= t < cands@.len() ==> (#[trigger] cands@[t]).index < n,
            forall|t: int| 0 <= t < additional@.len() ==> (#[trigger] additional@[t]).index < n,
        decreases cands@.len() - k,
    {
        let c = cands[k];
        proof {
            assert((before + cands@.take(k + 1)).drop_last() =~= before + cands@.take(k as int));
            assert((before + cands@.take(k + 1)).last() == c);
        }
        let present = contains_index(rows, c.index) || index_among(additional, c.index);
        proof {
            if existing.contains(c.index) {
                let u = choose|u: int| 0 <= u < ix.len() && #[trigger] ix[u] == c.index;
                assert(rows@[u].index == c.index);
            }
            if exists|u: int| 0 <= u < rows@.len() && #[trigger] rows@[u].index == c.index {
                let u = choose|u: int| 0 <= u < rows@.len() && #[trigger] rows@[u].index == c.index;
                assert(ix[u] == c.index);
                assert(existing.contains(c.index));
            }
        }
        if !present {
            additional.push(c);
        }
        k = k + 1;
    }
    proof {
        assert(cands@.take(k as int) =~= cands@);
    }
}

fn contains_index(rows: &Vec<Row>, i: usize) -> (r: bool)
    ensures
        r == exists|t: int| 0 <= t < rows@.len() && #[trigger] rows@[t].index == i,
{
    index_among(rows, i)
}

proof fn lemma_context_walks_prefix(ups: Seq<Seq<Row>>, downs: Seq<Seq<Row>>, ups2: Seq<Seq<Row>>, downs2: Seq<Seq<Row>>, n: int)
    requires
        n <= ups2.len(),
        n <= downs2.len(),
        n <= ups.len(),
        n <= downs.len(),
        forall|i: int| 0 <= i < n ==> ups[i] == ups2[i] && downs[i] == downs2[i],
    ensures
        context_walks(ups, downs, n) == context_walks(ups2, downs2, n),
    decreases n,
{
    if n > 0 {
        lemma_context_walks_prefix(ups, downs, ups2, downs2, n - 1);
    }
}

// ---------------------------------------------------------------------------
// Sorting
// ---------------------------------------------------------------------------

/// Three-way comparison of texts: -1, 0 or 1.
pub open spec fn text_order(a: Seq<char>, b: Seq<char>) -> int {
    if text_lt(a, b) {
        -1
    } else if a == b {
        0
    } else {
        1
    }
}

/// Three-way comparison of numbers.
pub open spec fn num_order(a: int, b: int) -> int {
    if a < b {
        -1
    } else if a == b {
        0
    } else {
        1
    }
}

/// The first comparison, or the second where the first finds a tie.
pub open spec fn then_order(x: int, y: int) -> int {
    if x != 0 {
        x
    } else {
        y
    }
}

/// How the rows `a` and `b` compare under a sort field: by the field
/// (kind, title or creation time, then the displayed HRID; or the displayed
/// HRID alone), then by depth.
pub open spec fn row_order(entries: Seq<ListEntry>, field: SortField, digits: nat, a: Row, b: Row) -> int {
    let ea = entries[a.index as int];
    let eb = entries[b.index as int];
    let da = spec_display(ea.hrid@, digits);
    let db = spec_display(eb.hrid@, digits);
    let primary = match field {
        SortField::Hrid => text_order(da, db),
        SortField::Kind => then_order(text_order(ea.hrid@.kind, eb.hrid@.kind), text_order(da, db)),
        SortField::Title => then_order(text_order(title_text(ea), title_text(eb)), text_order(da, db)),
        SortField::Created => then_order(
            then_order(num_order(ea.created.seconds as int, eb.created.seconds as int), num_order(ea.created.nanos as int, eb.created.nanos as int)),
            text_order(da, db),
        ),
    };
    then_order(primary, num_order(a.depth as int, b.depth as int))
}

/// Three comparisons among `a`, `b` and `c` agree as an ordering does.
pub open spec fn consistent(ab: int, bc: int, ac: int) -> bool {
    &&& (ab <= 0 && bc <= 0 ==> ac <= 0)
    &&& (ab == 0 && bc == 0 ==> ac == 0)
    &&& (ab < 0 && bc <= 0 ==> ac < 0)
    &&& (ab <= 0 && bc < 0 ==> ac < 0)
}

proof fn lemma_text_order(a: Seq<char>, b: Seq<char>, c: Seq<char>)
    ensures
        consistent(text_order(a, b), text_order(b, c), text_order(a, c)),
        text_order(a, b) == -text_order(b, a),
{
    lemma_text_lt_irrefl(a);
    lemma_text_lt_irrefl(b);
    if a != b {
        lemma_text_lt_total(a, b);
    }
    if text_lt(a, b) {
        lemma_text_lt_asym(a, b);
    }
    if text_lt(b, a) {
        lemma_text_lt_asym(b, a);
    }
    if text_lt(a, b) && text_lt(b, c) {
        lemma_text_lt_trans(a, b, c);
    }
    if b != c {
        lemma_text_lt_total(b, c);
    }
    if a != c {
        lemma_text_lt_total(a, c);
    }
    if text_lt(a, c) {
        lemma_text_lt_asym(a, c);
    }
    if text_lt(b, c) && text_lt(c, a) {
        lemma_text_lt_trans(b, c, a);
    }
    if text_lt(c, a) && text_lt(a, b) {
        lemma_text_lt_trans(c, a, b);
    }
}

/// Row comparison is an ordering: consistent on any three rows and
/// antisymmetric.
pub proof fn lemma_row_order(entries: Seq<ListEntry>, field: SortField, digits: nat, a: Row, b: Row, c: Row)
    ensures
        consistent(
            row_order(entries, field, digits, a, b),
            row_order(entries, field, digits, b, c),
            row_order(entries, field, digits, a, c),
        ),
        row_order(entries, field, digits, a, b) == -row_order(entries, field, digits, b, a),
{
    let ea = entries[a.index as int];
    let eb = entries[b.index as int];
    let ec = entries[c.index as int];
    let da = spec_display(ea.hrid@, digits);
    let db = spec_display(eb.hrid@, digits);
    let dc = spec_display(ec.hrid@, digits);
    lemma_text_order(da, db, dc);
    lemma_text_order(ea.hrid@.kind, eb.hrid@.kind, ec.hrid@.kind);
    lemma_text_order(title_text(ea), title_text(eb), title_text(ec));
}

/// The values a row is compared by.
struct RowKey {
    display: String,
    kind: String,
    title: String,
    created: Timestamp,
    depth: usize,
}

fn compare_texts(a: &str, b: &str) -> (r: i8)
    ensures
        r as int == text_order(a@, b@),
{
    if str_lt(a, b) {
        -1
    } else if str_eq(a, b) {
        0
    } else {
        1
    }
}

fn compare_numbers(a: i64, b: i64) -> (r: i8)
    ensures
        r as int == num_order(a as int, b as int),
{
    if a < b {
        -1
    } else if a == b {
        0
    } else {
        1
    }
}

fn key_of(entries: &[ListEntry], row: Row, digits: usize) -> (r: RowKey)
    requires
        row.index < entries@.len(),
    ensures
        r.display@ == spec_display(entries@[row.index as int].hrid@, digits as nat),
        r.kind@ == entries@[row.index as int].hrid@.kind,
        r.title@ == title_text(entries@[row.index as int]),
        r.created == entries@[row.index as int].created,
        r.depth == row.depth,
{
    let e = &entries[row.index];
    RowKey {
        display: e.hrid.to_string_with_digits(digits),
        kind: string_of(e.hrid.kind()),
        title: match &e.title {
            Some(t) => copy_string(t),
            None => String::new(),
        },
        created: e.created,
        depth: row.depth,
    }
}

fn compare_keys(a: &RowKey, b: &RowKey, field: SortField) -> (r: i8)
    ensures
        r as int == then_order(
            match field {
                SortField::Hrid => text_order(a.display@, b.display@),
                SortField::Kind => then_order(text_order(a.kind@, b.kind@), text_order(a.display@, b.display@)),
                SortField::Title => then_order(text_order(a.title@, b.title@), text_order(a.display@, b.display@)),
                SortField::Created => then_order(
                    then_order(num_order(a.created.seconds as int, b.created.seconds as int), num_order(a.created.nanos as int, b.created.nanos as int)),
                    text_order(a.display@, b.display@),
                ),
            },
            num_order(a.depth as int, b.depth as int),
        ),
{
    let shown = compare_texts(a.display.as_str(), b.display.as_str());
    let primary: i8 = match field {
        SortField::Hrid => shown,
        SortField::Kind => {
            let k = compare_texts(a.kind.as_str(), b.kind.as_str());
            if k != 0 { k } else { shown }
        },
        SortField::Title => {
            let t = compare_texts(a.title.as_str(), b.title.as_str());
            if t != 0 { t } else { shown }
        },
        SortField::Created => {
            let sec = compare_numbers(a.created.seconds, b.created.seconds);
            let c = if sec != 0 { sec } else { compare_numbers(a.created.nanos as i64, b.created.nanos as i64) };
            if c != 0 { c } else { shown }
        },
    };
    if primary != 0 {
        primary
    } else if a.depth < b.depth {
        -1
    } else if a.depth == b.depth {
        0
    } else {
        1
    }
}

/// `r` is `rows` sorted by the field, stably: `perm` says where each row
/// came from.
pub open spec fn sorted_by(entries: Seq<ListEntry>, field: SortField, digits: nat, rows: Seq<Row>, r: Seq<Row>, perm: Seq<int>) -> bool {
    &&& perm.len() == rows.len()
    &&& r.len() == rows.len()
    &&& perm.no_duplicates()
    &&& forall|i: int| 0 <= i < perm.len() ==> 0 <= #[trigger] perm[i] < rows.len() && r[i] == rows[perm[i]]
    &&& forall|i: int, j: int| 0 <= i < j < r.len() ==> row_order(entries, field, digits, #[trigger] r[i], #[trigger] r[j]) <= 0
    &&& forall|i: int, j: int| 0 <= i < j < r.len() && row_order(entries, field, digits, #[trigger] r[i], #[trigger] r[j]) == 0
        ==> perm[i] < perm[j]
}

/// The keys describe the rows' entries.
spec fn keys_describe(keys: Seq<RowKey>, rows: Seq<Row>, es: Seq<ListEntry>, dg: nat) -> bool {
    &&& keys.len() == rows.len()
    &&& forall|u: int| 0 <= u < rows.len() ==> (#[trigger] keys[u]).display@ == spec_display(es[rows[u].index as int].hrid@, dg)
        && keys[u].kind@ == es[rows[u].index as int].hrid@.kind && keys[u].title@ == title_text(es[rows[u].index as int])
        && keys[u].created == es[rows[u].index as int].created && keys[u].depth == rows[u].depth
}

/// Positions of rows in sorted order, stable, covering the first `k` rows.
spec fn sorted_positions(es: Seq<ListEntry>, field: SortField, dg: nat, rows: Seq<Row>, o: Seq<usize>, k: int) -> bool {
    &&& o.len() == k
    &&& o.no_duplicates()
    &&& forall|i: int| 0 <= i < k ==> #[trigger] o[i] < k
    &&& forall|i: int, j: int| 0 <= i < j < k ==> row_order(es, field, dg, rows[#[trigger] o[i] as int], rows[#[trigger] o[j] as int]) <= 0
    &&& forall|i: int, j: int| 0 <= i < j < k && row_order(es, field, dg, rows[#[trigger] o[i] as int], rows[#[trigger] o[j] as int]) == 0
        ==> o[i] < o[j]
}

proof fn lemma_insert_shape(before: Seq<usize>, k: int, p: int)
    requires
        0 <= k < usize::MAX,
        before.len() == k,
        before.no_duplicates(),
        forall|i: int| 0 <= i < k ==> #[trigger] before[i] < k,
        0 <= p <= k,
    ensures
        ({
            let o = before.insert(p, k as usize);
            &&& o.len() == k + 1
            &&& o.no_duplicates()
            &&& forall|i: int| 0 <= i < k + 1 ==> #[trigger] o[i] < k + 1
            &&& o[p] == k
            &&& forall|i: int| 0 <= i < p ==> #[trigger] o[i] == before[i]
            &&& forall|i: int| p < i < k + 1 ==> #[trigger] o[i] == before[i - 1]
        }),
{
    let o = before.insert(p, k as usize);
    assert forall|i: int| 0 <= i < k + 1 implies #[trigger] o[i] < k + 1 by {
        if i < p {
            assert(o[i] == before[i]);
        } else if i > p {
            assert(o[i] == before[i - 1]);
        }
    }
    assert forall|a: int, b: int| 0 <= a < o.len() && 0 <= b < o.len() && a != b implies o[a] != o[b] by {
        if a != p && b != p {
            let ia = if a < p { a } else { a - 1 };
            let ib = if b < p { b } else { b - 1 };
            assert(o[a] == before[ia] && o[b] == before[ib]);
            assert(before[ia] != before[ib]);
        } else if a == p {
            let ib = if b < p { b } else { b - 1 };
            assert(o[b] == before[ib]);
            assert(before[ib] < k);
        } else {
            let ia = if a < p { a } else { a - 1 };
            assert(o[a] == before[ia]);
            assert(before[ia] < k);
        }
    }
}

proof fn lemma_insert_position(es: Seq<ListEntry>, field: SortField, dg: nat, rows: Seq<Row>, before: Seq<usize>, k: int, p: int)
    requires
        0 <= k < rows.len(),
        k < usize::MAX,
        sorted_positions(es, field, dg, rows, before, k),
        0 <= p <= k,
        forall|i: int| p <= i < k ==> row_order(es, field, dg, rows[k], rows[#[trigger] before[i] as int]) < 0,
        p > 0 ==> row_order(es, field, dg, rows[k], rows[before[p - 1] as int]) >= 0,
    ensures
        sorted_positions(es, field, dg, rows, before.insert(p, k as usize), k + 1),
{
    let x = rows[k];
    lemma_insert_shape(before, k, p);
    let o = before.insert(p, k as usize);
    assert forall|i: int| 0 <= i < p implies row_order(es, field, dg, rows[#[trigger] before[i] as int], x) <= 0 by {
        let y = rows[before[p - 1] as int];
        lemma_row_order(es, field, dg, x, y, x);
        lemma_row_order(es, field, dg, rows[before[i] as int], y, x);
    }
    assert forall|i: int, j: int| 0 <= i < j < k + 1 implies row_order(es, field, dg, rows[#[trigger] o[i] as int], rows[#[trigger] o[j] as int]) <= 0
        && (row_order(es, field, dg, rows[o[i] as int], rows[o[j] as int]) == 0 ==> o[i] < o[j]) by {
        if j < p {
            assert(o[i] == before[i] && o[j] == before[j]);
        } else if j == p {
            assert(o[i] == before[i]);
            assert(before[i] < k);
        } else if i < p {
            assert(o[i] == before[i] && o[j] == before[j - 1]);
            lemma_row_order(es, field, dg, rows[before[i] as int], x, rows[before[j - 1] as int]);
            assert(before[i] < k);
        } else if i == p {
            assert(o[j] == before[j - 1]);
            assert(row_order(es, field, dg, x, rows[before[j - 1] as int]) < 0);
        } else {
            assert(o[i] == before[i - 1] && o[j] == before[j - 1]);
        }
    }
}

/// Sorts rows by a field, keeping the order of rows that compare equal.
pub fn apply_sort(rows: Vec<Row>, entries: &[ListEntry], sort_field: SortField, digits: usize) -> (r: Vec<Row>)
    requires
        forall|t: int| 0 <= t < rows@.len() ==> (#[trigger] rows@[t]).index < entries@.len(),
    ensures
        exists|perm: Seq<int>| sorted_by(entries@, sort_field, digits as nat, rows@, r@, perm),
{
    let ghost es = entries@;
    let ghost dg = digits as nat;
    let mut keys: Vec<RowKey> = Vec::new();
    let mut t: usize = 0;
    while t < rows.len()
        invariant
            es == entries@,
            dg == digits as nat,
            forall|t: int| 0 <= t < rows@.len() ==> (#[trigger] rows@[t]).index < entries@.len(),
            t <= rows@.len(),
            keys_describe(keys@, rows@.take(t as int), es, dg),
        decreases rows@.len() - t,
    {
        let ghost before = keys@;
        let key = key_of(entries, rows[t], digits);
        keys.push(key);
        proof {
            assert(keys@[t as int] == key);
            let rt = rows@.take(t + 1);
            assert forall|u: int| 0 <= u < rt.len() implies (#[trigger] keys@[u]).display@ == spec_display(es[rt[u].index as int].hrid@, dg)
                && keys@[u].kind@ == es[rt[u].index as int].hrid@.kind && keys@[u].title@ == title_text(es[rt[u].index as int])
                && keys@[u].created == es[rt[u].index as int].created && keys@[u].depth == rt[u].depth by {
                assert(rt[u] == rows@[u]);
                if u < t {
                    assert(keys@[u] == before[u]);
                    assert(rows@.take(t as int)[u] == rows@[u]);
                } else {
                    assert(u == t);
                    assert(rows@[u] == rows@[t as int]);
                }
            }
        }
        t = t + 1;
    }
    proof {
        assert(rows@.take(t as int) =~= rows@);
    }
    let mut order: Vec<usize> = Vec::new();
    let mut k: usize = 0;
    while k < rows.len()
        invariant
            keys_describe(keys@, rows@, es, dg),
            k <= rows@.len(),
            sorted_positions(es, sort_field, dg, rows@, order@, k as int),
        decreases rows@.len() - k,
    {
        let mut p: usize = order.len();
        while p > 0 && compare_keys(&keys[k], &keys[order[p - 1]], sort_field) < 0
            invariant
                keys_describe(keys@, rows@, es, dg),
                k < rows@.len(),
                sorted_positions(es, sort_field, dg, rows@, order@, k as int),
                p <= k,
                forall|i: int| p <= i < k ==> row_order(es, sort_field, dg, rows@[k as int], rows@[#[trigger] order@[i] as int]) < 0,
            decreases p,
        {
            p = p - 1;
        }
        proof {
            lemma_insert_position(es, sort_field, dg, rows@, order@, k as int, p as int);
        }
        order.insert(p, k);
        k = k + 1;
    }
    let mut r: Vec<Row> = Vec::new();
    let mut i: usize = 0;
    while i < order.len()
        invariant
            order@.len() == rows@.len(),
            forall|i: int| 0 <= i < order@.len() ==> #[trigger] order@[i] < rows@.len(),
            i <= order@.len(),
            r@.len() == i,
            forall|u: int| 0 <= u < i ==> #[trigger] r@[u] == rows@[order@[u] as int],
        decreases order@.len() - i,
    {
        r.push(rows[order[i]]);
        i = i + 1;
    }
    let ghost perm = order@.map_values(|v: usize| v as int);
    proof {
        assert(perm.no_duplicates()) by {
            assert forall|a: int, b: int| 0 <= a < perm.len() && 0 <= b < perm.len() && a != b implies perm[a] != perm[b] by {
                assert(order@[a] != order@[b]);
            }
        }
        assert forall|a: int, b: int| 0 <= a < b < r@.len() implies row_order(es, sort_field, dg, #[trigger] r@[a], #[trigger] r@[b]) <= 0 by {
            assert(r@[a] == rows@[order@[a] as int] && r@[b] == rows@[order@[b] as int]);
        }
        assert forall|a: int, b: int| 0 <= a < b < r@.len() && row_order(es, sort_field, dg, #[trigger] r@[a], #[trigger] r@[b]) == 0
            implies perm[a] < perm[b] by {
            assert(r@[a] == rows@[order@[a] as int] && r@[b] == rows@[order@[b] as int]);
        }
        assert(sorted_by(es, sort_field, dg, rows@, r@, perm));
    }
    r
}

// ---------------------------------------------------------------------------
// The tree view
// ---------------------------------------------------------------------------

/// The depth-first walk from entry `i` at `depth`, given the entries seen
/// and rows found so far: an entry not yet seen (and within the limit) is
/// recorded, then its children are walked in order, each child only when it
/// passes the filters or lies above the limit's last level. `fuel` bounds
/// the nesting; `entries.len() + 1` is always enough.
pub open spec fn tree_walk(
    es: Seq<ListEntry>,
    f: &Filters,
    hits: Seq<bool>,
    limit: usize,
    i: int,
    depth: nat,
    dir: Direction,
    seen: Set<int>,
    rows: Seq<Row>,
    fuel: nat,
) -> (Set<int>, Seq<Row>)
    decreases fuel, 0nat, 0nat,
{
    if fuel == 0 || !allowed(limit, depth as int) || seen.contains(i) {
        (seen, rows)
    } else {
        let seen1 = seen.insert(i);
        let rows1 = rows.push(Row { index: i as usize, direction: dir, depth: depth as usize });
        if !below_limit(limit, depth as int) {
            (seen1, rows1)
        } else {
            tree_walk_children(es, f, hits, limit, i, depth, seen1, rows1, 0, (fuel - 1) as nat)
        }
    }
}

/// The walk through the children of entry `i` from the `k`-th on.
pub open spec fn tree_walk_children(
    es: Seq<ListEntry>,
    f: &Filters,
    hits: Seq<bool>,
    limit: usize,
    i: int,
    depth: nat,
    seen: Set<int>,
    rows: Seq<Row>,
    k: nat,
    fuel: nat,
) -> (Set<int>, Seq<Row>)
    decreases fuel, 1nat, ref_uuids(es[i].children@).len() - k,
{
    let kids = ref_uuids(es[i].children@);
    if k >= kids.len() {
        (seen, rows)
    } else {
        let st = match position_of(es, kids[k as int]) {
            Some(c) => if passes(f, es, hits, c) || depth + 1 < limit {
                tree_walk(es, f, hits, limit, c, depth + 1, Direction::Down, seen, rows, fuel)
            } else {
                (seen, rows)
            },
            None => (seen, rows),
        };
        tree_walk_children(es, f, hits, limit, i, depth, st.0, st.1, k + 1, fuel)
    }
}

/// The entries marked as seen.
pub open spec fn seen_set(seen: Seq<bool>) -> Set<int> {
    Set::new(|i: int| 0 <= i < seen.len() && seen[i])
}

proof fn lemma_seen_set_len(seen: Seq<bool>)
    ensures
        seen_set(seen).finite(),
        seen_set(seen).len() <= seen.len(),
{
    vstd::set_lib::lemma_int_range(0, seen.len() as int);
    assert(seen_set(seen).subset_of(vstd::set_lib::set_int_range(0, seen.len() as int)));
    vstd::set_lib::lemma_len_subset(seen_set(seen), vstd::set_lib::set_int_range(0, seen.len() as int));
}

proof fn lemma_seen_insert(seen: Seq<bool>, i: int)
    requires
        0 <= i < seen.len(),
        !seen[i],
    ensures
        seen_set(seen.update(i, true)) == seen_set(seen).insert(i),
        seen_set(seen).len() < seen.len(),
        seen_set(seen.update(i, true)).len() == seen_set(seen).len() + 1,
{
    assert(seen_set(seen.update(i, true)) =~= seen_set(seen).insert(i));
    lemma_seen_set_len(seen.update(i, true));
    lemma_seen_set_len(seen);
}

fn tree_dfs(
    entries: &[ListEntry],
    f: &Filters,
    hits: &[bool],
    limit: usize,
    i: usize,
    depth: usize,
    dir: Direction,
    seen: &mut Vec<bool>,
    rows: &mut Vec<Row>,
    Ghost(fuel): Ghost<nat>,
)
    requires
        i < entries@.len(),
        hits@.len() == entries@.len(),
        entries@.len() < usize::MAX,
        old(seen)@.len() == entries@.len(),
        depth <= seen_set(old(seen)@).len(),
        fuel + seen_set(old(seen)@).len() >= entries@.len() + 1,
        forall|t: int| 0 <= t < old(rows)@.len() ==> (#[trigger] old(rows)@[t]).index < entries@.len(),
    ensures
        final(seen)@.len() == entries@.len(),
        forall|t: int| 0 <= t < final(rows)@.len() ==> (#[trigger] final(rows)@[t]).index < entries@.len(),
        seen_set(old(seen)@).subset_of(seen_set(final(seen)@)),
        (seen_set(final(seen)@), final(rows)@) == tree_walk(entries@, f, hits@, limit, i as int, depth as nat, dir, seen_set(old(seen)@), old(rows)@, fuel),
    decreases fuel,
{
    proof {
        lemma_seen_set_len(seen@);
    }
    if limit != usize::MAX && depth > limit {
        return;
    }
    if seen[i] {
        proof {
            assert(seen_set(seen@).contains(i as int));
        }
        return;
    }
    proof {
        lemma_seen_insert(seen@, i as int);
        assert(fuel > 0);
    }
    let ghost seen0 = seen_set(seen@);
    let ghost rows0 = rows@;
    seen.set(i, true);
    rows.push(Row { index: i, direction: dir, depth });
    if limit != usize::MAX && depth == limit {
        return;
    }
    let ghost target = tree_walk_children(entries@, f, hits@, limit, i as int, depth as nat, seen_set(seen@), rows@, 0, (fuel - 1) as nat);
    let mut k: usize = 0;
    while k < entries[i].children.len()
        invariant
            i < entries@.len(),
            hits@.len() == entries@.len(),
            entries@.len() < usize::MAX,
            seen@.len() == entries@.len(),
            fuel > 0,
            depth + 1 <= seen_set(seen@).len(),
            (fuel - 1) + seen_set(seen@).len() >= entries@.len() + 1,
            seen0.subset_of(seen_set(seen@)),
            forall|t: int| 0 <= t < rows@.len() ==> (#[trigger] rows@[t]).index < entries@.len(),
            k <= entries@[i as int].children@.len(),
            tree_walk_children(entries@, f, hits@, limit, i as int, depth as nat, seen_set(seen@), rows@, k as nat, (fuel - 1) as nat) == target,
        decreases entries@[i as int].children@.len() - k,
    {
        let u = entries[i].children[k].uuid;
        proof {
            assert(ref_uuids(entries@[i as int].children@)[k as int] == u);
            lemma_seen_set_len(seen@);
        }
        match find_position(entries, u) {
            Some(c) => {
                proof {
                    lemma_position_of(entries@, u);
                }
                if f.admits_with(&entries[c], hits[c]) || depth + 1 < limit {
                    let ghost before = seen_set(seen@);
                    tree_dfs(entries, f, hits, limit, c, depth + 1, Direction::Down, seen, rows, Ghost((fuel - 1) as nat));
                    proof {
                        lemma_seen_set_len(seen@);
                        vstd::set_lib::lemma_len_subset(before, seen_set(seen@));
                    }
                }
            },
            None => {},
        }
        k = k + 1;
    }
    proof {
        assert(seen0.subset_of(seen_set(seen@)));
    }
}

/// The entries without parents, in order.
pub open spec fn root_positions(es: Seq<ListEntry>, m: int) -> Seq<usize>
    decreases m,
{
    if m <= 0 {
        Seq::empty()
    } else if es[m - 1].parents@.len() == 0 {
        root_positions(es, m - 1).push((m - 1) as usize)
    } else {
        root_positions(es, m - 1)
    }
}

/// The walks from each seed in turn, sharing what was seen.
pub open spec fn tree_walks(es: Seq<ListEntry>, f: &Filters, hits: Seq<bool>, limit: usize, seeds: Seq<usize>) -> (Set<int>, Seq<Row>)
    decreases seeds.len(),
{
    if seeds.len() == 0 {
        (Set::empty(), Seq::empty())
    } else {
        let st = tree_walks(es, f, hits, limit, seeds.drop_last());
        tree_walk(es, f, hits, limit, seeds.last() as int, 0, Direction::Neutral, st.0, st.1, (es.len() + 1) as nat)
    }
}

/// The rows that pass the filters or stand at the top of a walk.
pub open spec fn tree_kept(f: &Filters, es: Seq<ListEntry>, hits: Seq<bool>, rows: Seq<Row>) -> Seq<Row>
    decreases rows.len(),
{
    if rows.len() == 0 {
        Seq::empty()
    } else {
        let prev = tree_kept(f, es, hits, rows.drop_last());
        let r = rows.last();
        if passes(f, es, hits, r.index as int) || r.depth == 0 {
            prev.push(r)
        } else {
            prev
        }
    }
}

/// The rows of the tree view: depth-first walks down from the targets (or,
/// with none, from every entry without parents), each entry once, up to the
/// depth limit (unbounded by default); then the rows that pass the filters
/// or head a walk.
pub fn produce_tree_rows(
    entries: &[ListEntry],
    filters: &Filters,
    hits: &[bool],
    targets: &[usize],
    depth: Option<usize>,
) -> (r: Vec<Row>)
    requires
        hits@.len() == entries@.len(),
        entries@.len() < usize::MAX,
        forall|k: int| 0 <= k < targets@.len() ==> #[trigger] targets@[k] < entries@.len(),
    ensures
        forall|t: int| 0 <= t < r@.len() ==> (#[trigger] r@[t]).index < entries@.len(),
        ({
            let seeds = if targets@.len() == 0 { root_positions(entries@, entries@.len() as int) } else { targets@ };
            r@ == tree_kept(filters, entries@, hits@, tree_walks(entries@, filters, hits@, depth_limit(depth, usize::MAX), seeds).1)
        }),
{
    let n = entries.len();
    let mut seeds: Vec<usize> = Vec::new();
    if targets.len() == 0 {
        let mut m: usize = 0;
        while m < n
            invariant
                n == entries@.len(),
                m <= n,
                seeds@ == root_positions(entries@, m as int),
                forall|k: int| 0 <= k < seeds@.len() ==> #[trigger] seeds@[k] < m,
            decreases n - m,
        {
            if entries[m].parents.len() == 0 {
                seeds.push(m);
            }
            m = m + 1;
        }
    } else {
        let mut k: usize = 0;
        while k < targets.len()
            invariant
                k <= targets@.len(),
                seeds@ == targets@.take(k as int),
            decreases targets@.len() - k,
        {
            seeds.push(targets[k]);
            proof {
                assert(targets@.take(k + 1) =~= targets@.take(k as int).push(targets@[k as int]));
            }
            k = k + 1;
        }
        proof {
            assert(targets@.take(k as int) =~= targets@);
        }
    }
    let ghost all_seeds = seeds@;
    let limit = resolve_depth(depth, usize::MAX);
    let mut seen: Vec<bool> = Vec::new();
    while seen.len() < n
        invariant
            seen@.len() <= n,
            forall|i: int| 0 <= i < seen@.len() ==> !#[trigger] seen@[i],
        decreases n - seen@.len(),
    {
        seen.push(false);
    }
    proof {
        assert(seen_set(seen@) =~= Set::<int>::empty());
    }
    let mut rows: Vec<Row> = Vec::new();
    let mut s: usize = 0;
    while s < seeds.len()
        invariant
            n == entries@.len(),
            n < usize::MAX,
            hits@.len() == n,
            seeds@ == all_seeds,
            forall|k: int| 0 <= k < seeds@.len() ==> #[trigger] seeds@[k] < n,
            s <= seeds@.len(),
            seen@.len() == n,
            forall|t: int| 0 <= t < rows@.len() ==> (#[trigger] rows@[t]).index < n,
            (seen_set(seen@), rows@) == tree_walks(entries@, filters, hits@, limit, seeds@.take(s as int)),
        decreases seeds@.len() - s,
    {
        proof {
            lemma_seen_set_len(seen@);
            assert(seeds@.take(s + 1).drop_last() =~= seeds@.take(s as int));
            assert(seeds@.take(s + 1).last() == seeds@[s as int]);
        }
        tree_dfs(entries, filters, hits, limit, seeds[s], 0, Direction::Neutral, &mut seen, &mut rows, Ghost((n + 1) as nat));
        s = s + 1;
    }
    proof {
        assert(seeds@.take(s as int) =~= seeds@);
    }
    let ghost walked_rows = rows@;
    let mut r: Vec<Row> = Vec::new();
    let mut t: usize = 0;
    while t < rows.len()
        invariant
            hits@.len() == entries@.len(),
            rows@ == walked_rows,
            forall|t: int| 0 <= t < rows@.len() ==> (#[trigger] rows@[t]).index < entries@.len(),
            forall|u: int| 0 <= u < r@.len() ==> (#[trigger] r@[u]).index < entries@.len(),
            t <= rows@.len(),
            r@ == tree_kept(filters, entries@, hits@, rows@.take(t as int)),
        decreases rows@.len() - t,
    {
        let row = rows[t];
        proof {
            assert(rows@.take(t + 1).drop_last() =~= rows@.take(t as int));
        }
        if filters.admits_with(&entries[row.index], hits[row.index]) || row.depth == 0 {
            r.push(row);
        }
        t = t + 1;
    }
    proof {
        assert(rows@.take(t as int) =~= rows@);
    }
    r
}

// ---------------------------------------------------------------------------
// The listing as a whole
// ---------------------------------------------------------------------------

/// The rows a view yields for the targets (`explicit` when the targets
/// were named on the command line rather than being every entry).
pub open spec fn view_rows(
    view: ListingView,
    f: &Filters,
    entries: Seq<ListEntry>,
    hits: Seq<bool>,
    explicit: bool,
    targets: Seq<usize>,
    depth: Option<usize>,
    r: Seq<Row>,
) -> bool {
    match view {
        ListingView::Summary => r == base_rows(f, entries, hits, targets),
        ListingView::Tree => {
            let tree_targets = if explicit { targets } else { Seq::empty() };
            let seeds = if tree_targets.len() == 0 { root_positions(entries, entries.len() as int) } else { tree_targets };
            r == tree_kept(f, entries, hits, tree_walks(entries, f, hits, depth_limit(depth, usize::MAX), seeds).1)
        },
        ListingView::Context => {
            let base = base_rows(f, entries, hits, targets);
            let d = depth_limit(depth, 1);
            exists|ups: Seq<Seq<Row>>, downs: Seq<Seq<Row>>| {
                &&& ups.len() == base.len()
                &&& downs.len() == base.len()
                &&& forall|t: int| 0 <= t < base.len() ==> walked(entries, seq![base[t].index], Direction::Up, d, #[trigger] ups[t])
                &&& forall|t: int| 0 <= t < base.len() ==> walked(entries, seq![base[t].index], Direction::Down, d, #[trigger] downs[t])
                &&& r == base + added_rows(row_indices(base), context_walks(ups, downs, base.len() as int))
            }
        },
        _ => exists|walk: Seq<Row>|
            walked(entries, targets, view_direction(view), depth_limit(depth, view_default_depth(view)), walk) && r
                == #[trigger] passing(f, entries, hits, walk),
    }
}

proof fn lemma_base_rows_in(f: &Filters, entries: Seq<ListEntry>, hits: Seq<bool>, targets: Seq<usize>)
    requires
        forall|k: int| 0 <= k < targets.len() ==> #[trigger] targets[k] < entries.len(),
    ensures
        forall|t: int| 0 <= t < base_rows(f, entries, hits, targets).len() ==> (#[trigger] base_rows(f, entries, hits, targets)[t]).index
            < entries.len(),
    decreases targets.len(),
{
    if targets.len() > 0 {
        let d = targets.drop_last();
        assert forall|k: int| 0 <= k < d.len() implies #[trigger] d[k] < entries.len() by {
            assert(d[k] == targets[k]);
        }
        lemma_base_rows_in(f, entries, hits, d);
        assert(targets.last() == targets[targets.len() - 1]);
    }
}

/// The rows of the view asked for.
pub fn produce_rows(
    view: ListingView,
    entries: &[ListEntry],
    filters: &Filters,
    hits: &[bool],
    explicit: bool,
    targets: Vec<usize>,
    depth: Option<usize>,
) -> (r: Vec<Row>)
    requires
        hits@.len() == entries@.len(),
        entries@.len() < usize::MAX,
        forall|k: int| 0 <= k < targets@.len() ==> #[trigger] targets@[k] < entries@.len(),
    ensures
        view_rows(view, filters, entries@, hits@, explicit, targets@, depth, r@),
        forall|t: int| 0 <= t < r@.len() ==> (#[trigger] r@[t]).index < entries@.len(),
{
    match view {
        ListingView::Summary => {
            let ts = targets.as_slice();
            let r = produce_base_rows(entries, filters, hits, ts);
            proof {
                assert(ts@ == targets@);
                lemma_base_rows_in(filters, entries@, hits@, targets@);
                assert forall|t: int| 0 <= t < r@.len() implies (#[trigger] r@[t]).index < entries@.len() by {
                    assert(r@[t] == base_rows(filters, entries@, hits@, targets@)[t]);
                }
            }
            r
        },
        ListingView::Tree => {
            let tree_targets: Vec<usize> = if explicit { targets } else { Vec::new() };
            produce_tree_rows(entries, filters, hits, tree_targets.as_slice(), depth)
        },
        ListingView::Context => {
            let base = produce_base_rows(entries, filters, hits, targets.as_slice());
            let d = resolve_depth(depth, 1);
            proof {
                lemma_base_rows_in(filters, entries@, hits@, targets@);
            }
            augment_with_context(entries, base, d)
        },
        _ => produce_direction_rows(view, entries, filters, hits, targets.as_slice(), depth),
    }
}

/// The number of rows shown when no limit was given.
pub open spec fn default_limit() -> usize {
    200
}

/// The limit applied: the default when none was given, none for zero.
pub fn effective_limit(limit: Option<usize>) -> (r: Option<usize>)
    ensures
        r == match limit {
            None => Some(default_limit()),
            Some(n) => if n == 0 {
                None
            } else {
                Some(n)
            },
        },
{
    match limit {
        None => Some(200),
        Some(n) => if n == 0 {
            None
        } else {
            Some(n)
        },
    }
}

/// The limit as the header shows it.
pub open spec fn limit_text(limit: Option<usize>) -> Seq<char> {
    match limit {
        None => crate::hrid::decimal(default_limit() as nat),
        Some(n) => if n == 0 {
            "unlimited"@
        } else {
            crate::hrid::decimal(n as nat)
        },
    }
}

/// The header of a table listing.
pub open spec fn header_text(view: ListingView, filter_summary: Seq<char>, limit: Option<usize>) -> Seq<char> {
    "Listing requirements (view: "@ + crate::listing::view_name(view) + ", filters: "@ + filter_summary + ", limit: "@ + limit_text(
        limit,
    ) + ")"@
}

pub(crate) fn decimal_string(n: usize) -> (r: String)
    ensures
        r@ == crate::hrid::decimal(n as nat),
{
    let v = crate::hrid::zero_padded_decimal(n, 0);
    proof {
        crate::hrid::lemma_zero_padded(n as nat, 0);
    }
    string_from_chars(v.as_slice())
}

/// The header line of a table listing (before any styling).
pub fn listing_header(view: ListingView, filters: &Filters, limit: Option<usize>) -> (r: String)
    ensures
        r@ == header_text(
            view,
            if !filters.active() {
                "none"@
            } else {
                join(filter_parts(filters), ", "@)
            },
            limit,
        ),
{
    let label = match limit {
        None => decimal_string(200),
        Some(n) => if n == 0 {
            string_of("unlimited")
        } else {
            decimal_string(n)
        },
    };
    let mut r = string_of("Listing requirements (view: ");
    push_str(&mut r, view.name());
    push_str(&mut r, ", filters: ");
    push_str(&mut r, filters.describe().as_str());
    push_str(&mut r, ", limit: ");
    push_str(&mut r, label.as_str());
    push_str(&mut r, ")");
    r
}

/// The note under a truncated table: how many rows were cut off.
pub fn truncation_note(count: usize) -> (r: String)
    ensures
        r@ == "+"@ + crate::hrid::decimal(count as nat) + " more (use --limit or --offset)"@,
{
    let mut r = string_of("+");
    push_str(&mut r, decimal_string(count).as_str());
    push_str(&mut r, " more (use --limit or --offset)");
    r
}

} // verus!
