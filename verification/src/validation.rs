//! The result of validating a requirements repository: the issues found,
//! grouped by kind, and how many of them can be repaired automatically.

use vstd::prelude::*;

use crate::config::texts;
use crate::directory::{drift_view, hrid_set, hrids_of, Directory};
use crate::hrid::{decimal, spec_display, Hrid};
use crate::text::join;
use crate::mcp::{displayed, displayed_list};
use crate::requirement::{uuid_text, uuid_to_string};
use crate::rows::{display_path, path_text};
use crate::text::{push_str, string_of};
use crate::tree::{firsts, Tree};
use crate::requirement::parents_view;

verus! {

/// A file that is not where its HRID says it belongs.
#[derive(Debug)]
pub struct PathIssue {
    pub hrid: String,
    pub current_path: String,
    pub expected_path: String,
}

/// A problem with a link.
#[derive(Debug)]
pub enum LinkIssue {
    /// A child links to a parent UUID that is not a requirement.
    BrokenReference { child: String, parent_uuid: String },
    /// The links close a cycle; the HRIDs along it.
    CircularDependency { cycle: Vec<String> },
    /// A child records a parent HRID that is out of date.
    StaleHrid { child: String },
}

/// A link whose recorded parent fingerprint is out of date.
#[derive(Debug)]
pub struct SuspectIssue {
    pub child: String,
    pub parent: String,
}

/// The issues found, by kind.
#[derive(Debug)]
pub struct ValidationResult {
    pub paths: Vec<PathIssue>,
    pub links: Vec<LinkIssue>,
    pub suspect: Vec<SuspectIssue>,
}

impl Default for ValidationResult {
    fn default() -> (r: Self)
        ensures
            r.paths@.len() == 0,
            r.links@.len() == 0,
            r.suspect@.len() == 0,
    {
        ValidationResult { paths: Vec::new(), links: Vec::new(), suspect: Vec::new() }
    }
}

/// The number of stale-HRID issues among the first `n` link issues.
pub open spec fn stale_count(links: Seq<LinkIssue>, n: int) -> nat
    decreases n,
{
    if n <= 0 {
        0
    } else {
        stale_count(links, n - 1) + if links[n - 1] is StaleHrid {
            1nat
        } else {
            0nat
        }
    }
}

proof fn lemma_stale_count_bound(links: Seq<LinkIssue>, n: int)
    requires
        0 <= n,
    ensures
        stale_count(links, n) <= n,
    decreases n,
{
    if n > 0 {
        lemma_stale_count_bound(links, n - 1);
    }
}

impl ValidationResult {
    /// The number of issues of every kind.
    pub fn count_total_issues(&self) -> (r: usize)
        requires
            self.paths@.len() + self.links@.len() + self.suspect@.len() <= usize::MAX,
        ensures
            r == self.paths@.len() + self.links@.len() + self.suspect@.len(),
    {
        self.paths.len() + self.links.len() + self.suspect.len()
    }

    /// The number of stale-HRID issues.
    pub fn count_stale_hrids(&self) -> (r: usize)
        ensures
            r == stale_count(self.links@, self.links@.len() as int),
    {
        let mut n: usize = 0;
        let mut i: usize = 0;
        while i < self.links.len()
            invariant
                i <= self.links@.len(),
                n == stale_count(self.links@, i as int),
            decreases self.links@.len() - i,
        {
            proof {
                lemma_stale_count_bound(self.links@, i as int);
            }
            match &self.links[i] {
                LinkIssue::StaleHrid { .. } => {
                    n = n + 1;
                },
                _ => {},
            }
            i = i + 1;
        }
        n
    }

    /// The number of issues that can be repaired automatically: misplaced
    /// files and stale parent HRIDs.
    pub fn count_fixable_issues(&self) -> (r: usize)
        requires
            self.paths@.len() + self.links@.len() + self.suspect@.len() <= usize::MAX,
        ensures
            r == self.paths@.len() + stale_count(self.links@, self.links@.len() as int),
    {
        proof {
            lemma_stale_count_bound(self.links@, self.links@.len() as int);
        }
        self.paths.len() + self.count_stale_hrids()
    }

    /// The number of issues that need manual attention.
    pub fn count_unfixable_issues(&self) -> (r: usize)
        requires
            self.paths@.len() + self.links@.len() + self.suspect@.len() <= usize::MAX,
        ensures
            r == self.links@.len() - stale_count(self.links@, self.links@.len() as int) + self.suspect@.len(),
    {
        proof {
            lemma_stale_count_bound(self.links@, self.links@.len() as int);
        }
        self.count_total_issues() - self.count_fixable_issues()
    }
}

/// The positions of the link issues of one kind, in order.
pub open spec fn positions_where(links: Seq<LinkIssue>, pick: spec_fn(LinkIssue) -> bool) -> Seq<int>
    decreases links.len(),
{
    if links.len() == 0 {
        Seq::empty()
    } else if pick(links.last()) {
        positions_where(links.drop_last(), pick).push(links.len() - 1)
    } else {
        positions_where(links.drop_last(), pick)
    }
}

/// Splits link issues into cycles, broken references and stale HRIDs,
/// keeping their order within each group.
pub fn categorize_link_issues(links: &[LinkIssue]) -> (r: (Vec<&LinkIssue>, Vec<&LinkIssue>, Vec<&LinkIssue>))
    ensures
        r.0@.len() == positions_where(links@, |l: LinkIssue| l is CircularDependency).len(),
        forall|i: int| 0 <= i < r.0@.len() ==> *r.0@[i] == links@[positions_where(links@, |l: LinkIssue| l is CircularDependency)[i]],
        r.1@.len() == positions_where(links@, |l: LinkIssue| l is BrokenReference).len(),
        forall|i: int| 0 <= i < r.1@.len() ==> *r.1@[i] == links@[positions_where(links@, |l: LinkIssue| l is BrokenReference)[i]],
        r.2@.len() == positions_where(links@, |l: LinkIssue| l is StaleHrid).len(),
        forall|i: int| 0 <= i < r.2@.len() ==> *r.2@[i] == links@[positions_where(links@, |l: LinkIssue| l is StaleHrid)[i]],
{
    let ghost pc = |l: LinkIssue| l is CircularDependency;
    let ghost pb = |l: LinkIssue| l is BrokenReference;
    let ghost ps = |l: LinkIssue| l is StaleHrid;
    let mut cycles: Vec<&LinkIssue> = Vec::new();
    let mut broken: Vec<&LinkIssue> = Vec::new();
    let mut stale: Vec<&LinkIssue> = Vec::new();
    let mut i: usize = 0;
    while i < links.len()
        invariant
            i <= links@.len(),
            pc == (|l: LinkIssue| l is CircularDependency),
            pb == (|l: LinkIssue| l is BrokenReference),
            ps == (|l: LinkIssue| l is StaleHrid),
            cycles@.len() == positions_where(links@.take(i as int), pc).len(),
            forall|k: int| 0 <= k < cycles@.len() ==> *cycles@[k] == links@[positions_where(links@.take(i as int), pc)[k]],
            broken@.len() == positions_where(links@.take(i as int), pb).len(),
            forall|k: int| 0 <= k < broken@.len() ==> *broken@[k] == links@[positions_where(links@.take(i as int), pb)[k]],
            stale@.len() == positions_where(links@.take(i as int), ps).len(),
            forall|k: int| 0 <= k < stale@.len() ==> *stale@[k] == links@[positions_where(links@.take(i as int), ps)[k]],
        decreases links@.len() - i,
    {
        let link = &links[i];
        proof {
            let t = links@.take(i + 1);
            assert(t.drop_last() =~= links@.take(i as int));
            assert(t.last() == links@[i as int]);
        }
        match link {
            LinkIssue::CircularDependency { .. } => cycles.push(link),
            LinkIssue::BrokenReference { .. } => broken.push(link),
            LinkIssue::StaleHrid { .. } => stale.push(link),
        }
        i = i + 1;
    }
    proof {
        assert(links@.take(links@.len() as int) =~= links@);
    }
    (cycles, broken, stale)
}


// ---------------------------------------------------------------------------
// The checks
// ---------------------------------------------------------------------------

/// The child HRID texts of the stale-HRID issues in `v`, in order.
pub open spec fn stale_children(v: Seq<LinkIssue>) -> Seq<Seq<char>> {
    v.map_values(|l: LinkIssue| match l {
        LinkIssue::StaleHrid { child } => child@,
        _ => Seq::empty(),
    })
}

/// The (child, parent UUID) texts of the broken-reference issues in `v`.
pub open spec fn broken_pairs(v: Seq<LinkIssue>) -> Seq<(Seq<char>, Seq<char>)> {
    v.map_values(|l: LinkIssue| match l {
        LinkIssue::BrokenReference { child, parent_uuid } => (child@, parent_uuid@),
        _ => (Seq::empty(), Seq::empty()),
    })
}

/// The cycle texts of the circular-dependency issues in `v`.
pub open spec fn cycle_texts(v: Seq<LinkIssue>) -> Seq<Seq<Seq<char>>> {
    v.map_values(|l: LinkIssue| match l {
        LinkIssue::CircularDependency { cycle } => texts(cycle@),
        _ => Seq::empty(),
    })
}

/// The links among the requirements `us` to a parent that is not a
/// requirement: the child's HRID text and the parent's UUID text.
pub open spec fn broken_among(t: Tree, digits: nat, us: Set<u128>) -> Set<(Seq<char>, Seq<char>)> {
    Set::new(|x: (Seq<char>, Seq<char>)| exists|c: u128, p: u128|
        us.contains(c) && #[trigger] t.links().contains_key((c, p)) && t.reqs().contains_key(c) && !t.reqs().contains_key(p)
            && x == (spec_display(t.reqs()[c].hrid, digits), uuid_text(p)))
}

/// The link issues of a store: stale parent HRIDs first, then cycles, then
/// links to parents that are not requirements.
pub open spec fn link_issues_of(t: Tree, digits: nat, r: Seq<LinkIssue>) -> bool {
    exists|a: int, b: int| 0 <= a <= b <= r.len() && {
        &&& (forall|i: int| 0 <= i < a ==> #[trigger] r[i] is StaleHrid)
        &&& stale_children(r.take(a)).to_set() == displayed(hrids_of(t, t.drifted()), digits)
        &&& (forall|i: int| a <= i < b ==> #[trigger] r[i] is CircularDependency)
        &&& exists|cs: Seq<Vec<Hrid>>| {
            &&& t.cycle_list(cs)
            &&& (cs.len() == 0 <==> crate::tree::acyclic(t.links()))
            &&& #[trigger] cycle_texts(r.subrange(a, b)) == cs.map_values(|c: Vec<Hrid>| displayed_list(c@, digits))
        }
        &&& (forall|i: int| b <= i < r.len() ==> #[trigger] r[i] is BrokenReference)
        &&& broken_pairs(r.skip(b)).to_set() == broken_among(t, digits, t.reqs().dom())
    }
}

fn display_list(hs: &Vec<Hrid>, digits: usize) -> (r: Vec<String>)
    ensures
        texts(r@) == displayed_list(hs@, digits as nat),
{
    let mut r: Vec<String> = Vec::new();
    let mut i: usize = 0;
    while i < hs.len()
        invariant
            i <= hs@.len(),
            r@.len() == i,
            forall|j: int| 0 <= j < i ==> #[trigger] r@[j]@ == spec_display(hs@[j]@, digits as nat),
        decreases hs@.len() - i,
    {
        r.push(hs[i].to_string_with_digits(digits));
        i = i + 1;
    }
    assert(texts(r@) =~= displayed_list(hs@, digits as nat));
    r
}

/// The links from `c` to parents, among the first `q` listed, that are not
/// requirements.
pub open spec fn broken_listed(t: Tree, digits: nat, c: u128, ps: Seq<(u128, crate::requirement::Parent)>, q: int) -> Set<(Seq<char>, Seq<char>)> {
    Set::new(|x: (Seq<char>, Seq<char>)| exists|m: int| 0 <= m < q && !t.reqs().contains_key(#[trigger] ps[m].0)
        && x == (spec_display(t.reqs()[c].hrid, digits), uuid_text(ps[m].0)))
}

/// Stale parent HRIDs, circular dependencies and references to parents
/// that are not requirements.
pub fn link_issues(dir: &Directory) -> (r: Vec<LinkIssue>)
    requires
        dir.wf(),
    ensures
        link_issues_of(dir.tree_view(), dir.config_view().digits, r@),
{
    let ghost t = dir.tree_view();
    let digits = dir.config().digits();
    let ghost d = digits as nat;
    let mut out: Vec<LinkIssue> = Vec::new();
    // Stale parent HRIDs.
    let stale = dir.check_hrid_drift();
    let mut i: usize = 0;
    while i < stale.len()
        invariant
            d == digits as nat,
            i <= stale@.len(),
            out@.len() == i,
            forall|j: int| 0 <= j < i ==> #[trigger] out@[j] is StaleHrid,
            stale_children(out@) == displayed_list(stale@.take(i as int), d),
        decreases stale@.len() - i,
    {
        let ghost ob = out@;
        let child = stale[i].to_string_with_digits(digits);
        let ghost cv = child@;
        out.push(LinkIssue::StaleHrid { child });
        proof {
            assert(out@.drop_last() =~= ob);
            assert(stale_children(out@)[i as int] == cv);
            assert(cv == spec_display(stale@[i as int]@, d));
            assert(stale_children(out@).len() == stale_children(ob).len() + 1);
            assert forall|j: int| 0 <= j < i implies stale_children(out@)[j] == stale_children(ob)[j] by {
                assert(out@[j] == ob[j]);
            }
            assert(stale@.take(i + 1) =~= stale@.take(i as int).push(stale@[i as int]));
            assert(stale_children(out@) =~= stale_children(ob).push(spec_display(stale@[i as int]@, d)));
        }
        i = i + 1;
    }
    let a = out.len();
    let ghost sprefix = out@;
    proof {
        assert(stale@.take(i as int) =~= stale@);
        let sc = stale_children(out@);
        assert forall|x: Seq<char>| #[trigger] sc.to_set().contains(x) == displayed(hrids_of(t, t.drifted()), d).contains(x) by {
            if sc.to_set().contains(x) {
                let j = choose|j: int| 0 <= j < sc.len() && sc[j] == x;
                assert(stale@.map_values(|y: Hrid| y@)[j] == stale@[j]@);
                assert(hrid_set(stale@).contains(stale@[j]@));
            }
            if displayed(hrids_of(t, t.drifted()), d).contains(x) {
                let h = choose|h: crate::hrid::SpecHrid| hrids_of(t, t.drifted()).contains(h) && spec_display(h, d) == x;
                assert(hrid_set(stale@).contains(h));
                let sv = stale@.map_values(|y: Hrid| y@);
                assert(sv.to_set().contains(h));
                let j = choose|j: int| 0 <= j < sv.len() && sv[j] == h;
                assert(sc[j] == x);
            }
        }
        assert(sc.to_set() =~= displayed(hrids_of(t, t.drifted()), d));
    }
    // Cycles.
    let cycles = dir.detect_cycles();
    let mut k: usize = 0;
    while k < cycles.len()
        invariant
            d == digits as nat,
            k <= cycles@.len(),
            sprefix.len() == a,
            out@.len() == a + k,
            out@.take(a as int) == sprefix,
            forall|j: int| a <= j < out@.len() ==> #[trigger] out@[j] is CircularDependency,
            cycle_texts(out@.subrange(a as int, out@.len() as int)) == cycles@.take(k as int).map_values(
                |c: Vec<Hrid>| displayed_list(c@, d),
            ),
        decreases cycles@.len() - k,
    {
        let ghost ob = out@;
        let shown = display_list(&cycles[k], digits);
        let ghost sv = texts(shown@);
        out.push(LinkIssue::CircularDependency { cycle: shown });
        proof {
            let nsub = out@.subrange(a as int, out@.len() as int);
            let osub = ob.subrange(a as int, ob.len() as int);
            assert(nsub.len() == osub.len() + 1);
            assert(cycle_texts(nsub)[k as int] == sv);
            assert(sv == displayed_list(cycles@[k as int]@, d));
            assert(cycle_texts(nsub).len() == cycle_texts(osub).len() + 1);
            assert forall|j: int| 0 <= j < k implies cycle_texts(nsub)[j] == cycle_texts(osub)[j] by {
                assert(nsub[j] == osub[j]);
            }
            assert(out@.take(a as int) =~= ob.take(a as int));
            assert(cycles@.take(k + 1) =~= cycles@.take(k as int).push(cycles@[k as int]));
            assert(out@.subrange(a as int, out@.len() as int) =~= ob.subrange(a as int, ob.len() as int).push(out@.last()));
            assert(cycle_texts(out@.subrange(a as int, out@.len() as int)) =~= cycle_texts(ob.subrange(a as int, ob.len() as int)).push(
                displayed_list(cycles@[k as int]@, d),
            ));
        }
        k = k + 1;
    }
    let b = out.len();
    let ghost prefix = out@;
    proof {
        assert(cycles@.take(k as int) =~= cycles@);
        dir.lemma_tree_wf();
        assert(out@.skip(b as int) =~= Seq::<LinkIssue>::empty());
        assert(broken_pairs(out@.skip(b as int)).to_set() =~= broken_among(t, d, t.order().take(0).to_set()));
    }
    // References to parents that are not requirements.
    let views = dir.tree().iter();
    let ghost ord = t.order();
    let mut v: usize = 0;
    while v < views.len()
        invariant
            dir.wf(),
            t == dir.tree_view(),
            d == digits as nat,
            ord == t.order(),
            views@.len() == ord.len(),
            forall|j: int| 0 <= j < views@.len() ==> t.describes(ord[j], #[trigger] views@[j]),
            b <= out@.len(),
            prefix.len() == b,
            v <= views@.len(),
            out@.take(b as int) == prefix,
            forall|j: int| b <= j < out@.len() ==> #[trigger] out@[j] is BrokenReference,
            broken_pairs(out@.skip(b as int)).to_set() == broken_among(t, d, ord.take(v as int).to_set()),
        decreases views@.len() - v,
    {
        let view = &views[v];
        let ghost c = ord[v as int];
        let ghost base = broken_among(t, d, ord.take(v as int).to_set());
        proof {
            assert(t.describes(c, views@[v as int]));
            assert(broken_listed(t, d, c, view.parents@, 0) =~= Set::empty());
            assert(base.union(broken_listed(t, d, c, view.parents@, 0)) =~= base);
        }
        let mut q: usize = 0;
        while q < view.parents.len()
            invariant
                dir.wf(),
                t == dir.tree_view(),
                d == digits as nat,
                t.describes(c, *view),
                b <= out@.len(),
                prefix.len() == b,
                q <= view.parents@.len(),
                out@.take(b as int) == prefix,
                forall|j: int| b <= j < out@.len() ==> #[trigger] out@[j] is BrokenReference,
                broken_pairs(out@.skip(b as int)).to_set() == base.union(broken_listed(t, d, c, view.parents@, q as int)),
            decreases view.parents@.len() - q,
        {
            let p = view.parents[q].0;
            let ghost ob = out@;
            proof {
                dir.lemma_tree_wf();
            }
            let missing = dir.tree().requirement(p).is_none();
            if missing {
                let x = LinkIssue::BrokenReference { child: view.hrid.to_string_with_digits(digits), parent_uuid: uuid_to_string(p) };
                out.push(x);
                proof {
                    assert(out@.take(b as int) =~= ob.take(b as int));
                    assert(out@.skip(b as int) =~= ob.skip(b as int).push(x));
                    assert(broken_pairs(out@.skip(b as int)) =~= broken_pairs(ob.skip(b as int)).push(
                        (spec_display(t.reqs()[c].hrid, d), uuid_text(p)),
                    ));
                    broken_pairs(ob.skip(b as int)).lemma_push_to_set_commute((spec_display(t.reqs()[c].hrid, d), uuid_text(p)));
                }
            }
            proof {
                assert forall|x: (Seq<char>, Seq<char>)| #[trigger] broken_listed(t, d, c, view.parents@, q + 1).contains(x)
                    == (broken_listed(t, d, c, view.parents@, q as int).contains(x)
                        || (missing && x == (spec_display(t.reqs()[c].hrid, d), uuid_text(p)))) by {
                    if broken_listed(t, d, c, view.parents@, q + 1).contains(x) {
                        let m = choose|m: int| 0 <= m < q + 1 && !t.reqs().contains_key(#[trigger] view.parents@[m].0)
                            && x == (spec_display(t.reqs()[c].hrid, d), uuid_text(view.parents@[m].0));
                        if m < q {
                            assert(broken_listed(t, d, c, view.parents@, q as int).contains(x));
                        }
                    }
                    if broken_listed(t, d, c, view.parents@, q as int).contains(x) {
                        let m = choose|m: int| 0 <= m < q && !t.reqs().contains_key(#[trigger] view.parents@[m].0)
                            && x == (spec_display(t.reqs()[c].hrid, d), uuid_text(view.parents@[m].0));
                        assert(0 <= m < q + 1);
                    }
                    if missing && x == (spec_display(t.reqs()[c].hrid, d), uuid_text(p)) {
                        assert(view.parents@[q as int].0 == p);
                    }
                }
                assert(broken_pairs(out@.skip(b as int)).to_set() =~= base.union(broken_listed(t, d, c, view.parents@, q + 1)));
            }
            q = q + 1;
        }
        proof {
            let ps = view.parents@;
            assert(ord.take(v + 1).to_set() =~= ord.take(v as int).to_set().insert(c)) by {
                assert(ord.take(v + 1) =~= ord.take(v as int).push(c));
                ord.take(v as int).lemma_push_to_set_commute(c);
            }
            assert(firsts(parents_view(ps)).to_set() == t.parents_of(c));
            assert forall|x: (Seq<char>, Seq<char>)| #[trigger] broken_among(t, d, ord.take(v + 1).to_set()).contains(x)
                == base.union(broken_listed(t, d, c, ps, ps.len() as int)).contains(x) by {
                if broken_among(t, d, ord.take(v + 1).to_set()).contains(x) {
                    let (c2, p2) = choose|c2: u128, p2: u128| ord.take(v + 1).to_set().contains(c2) && #[trigger] t.links().contains_key((c2, p2))
                        && t.reqs().contains_key(c2) && !t.reqs().contains_key(p2)
                        && x == (spec_display(t.reqs()[c2].hrid, d), uuid_text(p2));
                    if c2 == c {
                        assert(t.parents_of(c).contains(p2));
                        assert(firsts(parents_view(ps)).to_set().contains(p2));
                        let m = choose|m: int| 0 <= m < firsts(parents_view(ps)).len() && firsts(parents_view(ps))[m] == p2;
                        assert(ps[m].0 == p2);
                        assert(broken_listed(t, d, c, ps, ps.len() as int).contains(x));
                    } else {
                        assert(ord.take(v as int).to_set().contains(c2));
                        assert(base.contains(x));
                    }
                }
                if broken_listed(t, d, c, ps, ps.len() as int).contains(x) {
                    let m = choose|m: int| 0 <= m < ps.len() && !t.reqs().contains_key(#[trigger] ps[m].0)
                        && x == (spec_display(t.reqs()[c].hrid, d), uuid_text(ps[m].0));
                    assert(firsts(parents_view(ps))[m] == ps[m].0);
                    assert(firsts(parents_view(ps)).to_set().contains(ps[m].0));
                    assert(t.parents_of(c).contains(ps[m].0));
                    assert(t.links().contains_key((c, ps[m].0)));
                    assert(ord.take(v + 1).to_set().contains(c)) by {
                        assert(ord.take(v + 1)[v as int] == c);
                    }
                    assert(t.reqs().contains_key(c));
                }
                if base.contains(x) {
                    let (c2, p2) = choose|c2: u128, p2: u128| ord.take(v as int).to_set().contains(c2) && #[trigger] t.links().contains_key((c2, p2))
                        && t.reqs().contains_key(c2) && !t.reqs().contains_key(p2)
                        && x == (spec_display(t.reqs()[c2].hrid, d), uuid_text(p2));
                    assert(ord.take(v + 1).to_set().contains(c2));
                }
            }
            assert(broken_among(t, d, ord.take(v + 1).to_set()) =~= base.union(broken_listed(t, d, c, ps, ps.len() as int)));
        }
        v = v + 1;
    }
    proof {
        assert(ord.take(v as int) =~= ord);
        assert(out@.take(a as int) =~= sprefix) by {
            assert(out@.take(b as int).take(a as int) =~= out@.take(a as int));
            assert(prefix.take(a as int) =~= sprefix);
        }
        assert forall|j: int| 0 <= j < a implies #[trigger] out@[j] is StaleHrid by {
            assert(out@[j] == sprefix[j]);
        }
        assert forall|j: int| a <= j < b implies #[trigger] out@[j] is CircularDependency by {
            assert(out@[j] == prefix[j]);
        }
        assert(out@.subrange(a as int, b as int) =~= prefix.subrange(a as int, prefix.len() as int));
        let cs = cycles@;
        assert(cycle_texts(out@.subrange(a as int, b as int)) == cs.map_values(|c: Vec<Hrid>| displayed_list(c@, d)));
        assert(link_issues_of(t, d, out@));
    }
    out
}


/// The texts of a path issue.
pub open spec fn path_issue_view(p: PathIssue) -> (Seq<char>, Seq<char>, Seq<char>) {
    (p.hrid@, p.current_path@, p.expected_path@)
}

/// The misplaced files of a store as issue texts, paths displayed below
/// `root`.
pub open spec fn misplaced_texts(dir: &Directory, root: Seq<char>) -> Set<(Seq<char>, Seq<char>, Seq<char>)> {
    dir.misplaced().map(|m: (crate::hrid::SpecHrid, Seq<Seq<char>>, Seq<Seq<char>>)|
        (spec_display(m.0, dir.config_view().digits), display_path(root, m.1), display_path(root, m.2)))
}

/// Files that are not at their canonical location, paths shown below
/// `root`.
pub fn path_issues(dir: &Directory, root: &str) -> (r: Vec<PathIssue>)
    requires
        dir.wf(),
    ensures
        r@.map_values(|p: PathIssue| path_issue_view(p)).to_set() == misplaced_texts(dir, root@),
{
    let digits = dir.config().digits();
    let drift = dir.check_path_drift();
    let ghost f = |m: (crate::hrid::SpecHrid, Seq<Seq<char>>, Seq<Seq<char>>)|
        (spec_display(m.0, digits as nat), display_path(root@, m.1), display_path(root@, m.2));
    let mut r: Vec<PathIssue> = Vec::new();
    let mut i: usize = 0;
    while i < drift.len()
        invariant
            i <= drift@.len(),
            r@.len() == i,
            f == (|m: (crate::hrid::SpecHrid, Seq<Seq<char>>, Seq<Seq<char>>)|
                (spec_display(m.0, digits as nat), display_path(root@, m.1), display_path(root@, m.2))),
            forall|j: int| 0 <= j < i ==> path_issue_view(#[trigger] r@[j]) == f(drift_view(drift@[j])),
        decreases drift@.len() - i,
    {
        let (h, cur, exp) = (&drift[i].0, &drift[i].1, &drift[i].2);
        r.push(PathIssue {
            hrid: h.to_string_with_digits(digits),
            current_path: path_text(root, cur),
            expected_path: path_text(root, exp),
        });
        i = i + 1;
    }
    proof {
        let rv = r@.map_values(|p: PathIssue| path_issue_view(p));
        let dv = drift@.map_values(|d: (Hrid, Vec<String>, Vec<String>)| drift_view(d));
        assert forall|x: (Seq<char>, Seq<char>, Seq<char>)| #[trigger] rv.to_set().contains(x) == dv.to_set().map(f).contains(x) by {
            if rv.to_set().contains(x) {
                let j = choose|j: int| 0 <= j < rv.len() && rv[j] == x;
                assert(path_issue_view(r@[j]) == f(drift_view(drift@[j])));
                assert(dv[j] == drift_view(drift@[j]));
                assert(dv.to_set().contains(dv[j]));
            }
            if dv.to_set().map(f).contains(x) {
                let m = choose|m: (crate::hrid::SpecHrid, Seq<Seq<char>>, Seq<Seq<char>>)| dv.to_set().contains(m) && f(m) == x;
                let j = choose|j: int| 0 <= j < dv.len() && dv[j] == m;
                assert(path_issue_view(r@[j]) == f(drift_view(drift@[j])));
                assert(rv[j] == x);
            }
        }
        assert(rv.to_set() =~= dv.to_set().map(f));
    }
    r
}

/// The texts of a suspect issue.
pub open spec fn suspect_issue_view(s: SuspectIssue) -> (Seq<char>, Seq<char>) {
    (s.child@, s.parent@)
}

/// The suspect links of a tree as (child, recorded parent) HRID texts.
pub open spec fn suspect_texts(t: Tree, digits: nat) -> Set<(Seq<char>, Seq<char>)> {
    Set::new(|x: (Seq<char>, Seq<char>)| exists|k: (u128, u128)| #[trigger] t.is_suspect(k) && t.reqs().contains_key(k.0)
        && x == (spec_display(t.reqs()[k.0].hrid, digits), spec_display(t.links()[k].hrid, digits)))
}

/// Links whose recorded parent fingerprint no longer matches.
pub fn suspect_issues(dir: &Directory) -> (r: Vec<SuspectIssue>)
    requires
        dir.wf(),
    ensures
        r@.map_values(|s: SuspectIssue| suspect_issue_view(s)).to_set() == suspect_texts(dir.tree_view(), dir.config_view().digits),
{
    let ghost t = dir.tree_view();
    let digits = dir.config().digits();
    let links = dir.suspect_links();
    let mut r: Vec<SuspectIssue> = Vec::new();
    let mut i: usize = 0;
    while i < links.len()
        invariant
            i <= links@.len(),
            r@.len() == i,
            forall|j: int| 0 <= j < i ==> suspect_issue_view(#[trigger] r@[j]) == (
                spec_display(links@[j].child_hrid@, digits as nat),
                spec_display(links@[j].parent_hrid@, digits as nat),
            ),
        decreases links@.len() - i,
    {
        r.push(SuspectIssue {
            child: links[i].child_hrid.to_string_with_digits(digits),
            parent: links[i].parent_hrid.to_string_with_digits(digits),
        });
        i = i + 1;
    }
    proof {
        let rv = r@.map_values(|s: SuspectIssue| suspect_issue_view(s));
        let d = digits as nat;
        assert forall|x: (Seq<char>, Seq<char>)| #[trigger] rv.to_set().contains(x) == suspect_texts(t, d).contains(x) by {
            if rv.to_set().contains(x) {
                let j = choose|j: int| 0 <= j < rv.len() && rv[j] == x;
                assert(suspect_issue_view(r@[j]) == rv[j]);
                assert(t.reports(links@[j]));
                let k = crate::tree::suspect_key(links@[j]);
                assert(t.is_suspect(k));
            }
            if suspect_texts(t, d).contains(x) {
                let k = choose|k: (u128, u128)| #[trigger] t.is_suspect(k) && t.reqs().contains_key(k.0)
                    && x == (spec_display(t.reqs()[k.0].hrid, d), spec_display(t.links()[k].hrid, d));
                assert(crate::tree::suspect_keys(links@).contains(k));
                let j = choose|j: int| 0 <= j < links@.len() && crate::tree::suspect_keys(links@)[j] == k;
                assert(t.reports(links@[j]));
                assert(rv[j] == x);
            }
        }
        assert(rv.to_set() =~= suspect_texts(t, d));
    }
    r
}


// ---------------------------------------------------------------------------
// Reports
// ---------------------------------------------------------------------------

/// The number of link issues of each kind: cycles, broken references and
/// stale HRIDs.
pub open spec fn link_counts(links: Seq<LinkIssue>) -> (nat, nat, nat) {
    (
        positions_where(links, |l: LinkIssue| l is CircularDependency).len(),
        positions_where(links, |l: LinkIssue| l is BrokenReference).len(),
        positions_where(links, |l: LinkIssue| l is StaleHrid).len(),
    )
}

/// `N what`, or nothing when `N` is zero.
pub open spec fn count_part(n: nat, what: Seq<char>) -> Seq<Seq<char>> {
    if n > 0 { seq![decimal(n) + what] } else { Seq::empty() }
}

/// The line of the links check.
pub open spec fn links_line(links: Seq<LinkIssue>) -> Seq<char> {
    if links.len() == 0 {
        "✓ Links:      No broken references, cycles, or stale HRIDs"@
    } else {
        let c = link_counts(links);
        "✗ Links:      "@ + decimal(links.len()) + " ("@ + join(
            count_part(c.0, " cycle(s)"@) + count_part(c.1, " broken ref(s)"@) + count_part(c.2, " stale HRID(s)"@),
            ", "@,
        ) + ")"@
    }
}

/// The lines of the validation report (none when quiet).
pub open spec fn report_text(result: ValidationResult, requirement_count: nat, quiet: bool) -> Seq<Seq<char>> {
    let p = result.paths@.len();
    let l = result.links@.len();
    let su = result.suspect@.len();
    let total = p + l + su;
    if quiet {
        Seq::empty()
    } else {
        seq![
            "Validating repository..."@,
            ""@,
            "✓ Structure:  "@ + decimal(requirement_count) + " requirements, all valid"@,
            if p == 0 { "✓ Paths:      All files at canonical locations"@ } else {
                "✗ Paths:      "@ + decimal(p) + " files not at canonical locations"@
            },
            links_line(result.links@),
            if su == 0 { "✓ Suspect:    No suspect links"@ } else { "✗ Suspect:    "@ + decimal(su) + " suspect links found"@ }
        ] + if total == 0 {
            seq![""@, "Repository is healthy (0 issues)"@]
        } else {
            seq![""@, "Summary: "@ + decimal(total) + " issues found"@]
                + (if p > 0 || l > 0 { seq![""@, "Run 'req validate --fix' to automatically repair fixable issues"@] } else { Seq::empty() })
                + (if su > 0 { seq!["Run 'req review --accept --all' to accept all suspect links"@] } else { Seq::empty() })
        }
    }
}

fn count_string(n: usize, what: &str) -> (r: String)
    ensures
        r@ == decimal(n as nat) + what@,
{
    let mut x = crate::rows::decimal_string(n);
    push_str(&mut x, what);
    x
}

fn labelled_count(label: &str, n: usize, what: &str) -> (r: String)
    ensures
        r@ == label@ + decimal(n as nat) + what@,
{
    let mut x = string_of(label);
    push_str(&mut x, crate::rows::decimal_string(n).as_str());
    push_str(&mut x, what);
    x
}

/// The lines of the validation report: one line per check and a summary
/// with hints; nothing when quiet.
pub fn validation_report_lines(result: &ValidationResult, requirement_count: usize, quiet: bool) -> (r: Vec<String>)
    requires
        result.paths@.len() + result.links@.len() + result.suspect@.len() <= usize::MAX,
    ensures
        texts(r@) == report_text(*result, requirement_count as nat, quiet),
{
    let mut r: Vec<String> = Vec::new();
    if quiet {
        proof {
            assert(texts(r@) =~= report_text(*result, requirement_count as nat, quiet));
        }
        return r;
    }
    r.push(string_of("Validating repository..."));
    r.push(string_of(""));
    let x = labelled_count("✓ Structure:  ", requirement_count, " requirements, all valid");
    r.push(x);
    if result.paths.len() == 0 {
        r.push(string_of("✓ Paths:      All files at canonical locations"));
    } else {
        let x = labelled_count("✗ Paths:      ", result.paths.len(), " files not at canonical locations");
        r.push(x);
    }
    if result.links.len() == 0 {
        r.push(string_of("✓ Links:      No broken references, cycles, or stale HRIDs"));
    } else {
        let (cycles, broken, stale) = categorize_link_issues(result.links.as_slice());
        let mut parts: Vec<String> = Vec::new();
        if cycles.len() > 0 {
            parts.push(count_string(cycles.len(), " cycle(s)"));
        }
        if broken.len() > 0 {
            parts.push(count_string(broken.len(), " broken ref(s)"));
        }
        if stale.len() > 0 {
            parts.push(count_string(stale.len(), " stale HRID(s)"));
        }
        let ghost c = link_counts(result.links@);
        proof {
            assert(texts(parts@) =~= count_part(c.0, " cycle(s)"@) + count_part(c.1, " broken ref(s)"@) + count_part(c.2, " stale HRID(s)"@));
        }
        let mut x = string_of("✗ Links:      ");
        push_str(&mut x, crate::rows::decimal_string(result.links.len()).as_str());
        push_str(&mut x, " (");
        push_str(&mut x, crate::render::join_with(parts.as_slice(), ", ").as_str());
        push_str(&mut x, ")");
        proof {
            assert(x@ == links_line(result.links@));
        }
        r.push(x);
    }
    if result.suspect.len() == 0 {
        r.push(string_of("✓ Suspect:    No suspect links"));
    } else {
        let x = labelled_count("✗ Suspect:    ", result.suspect.len(), " suspect links found");
        r.push(x);
    }
    let ghost head = texts(r@);
    proof {
        let p = result.paths@.len();
        let su = result.suspect@.len();
        assert(head =~= seq![
            "Validating repository..."@,
            ""@,
            "✓ Structure:  "@ + decimal(requirement_count as nat) + " requirements, all valid"@,
            if p == 0 { "✓ Paths:      All files at canonical locations"@ } else {
                "✗ Paths:      "@ + decimal(p) + " files not at canonical locations"@
            },
            links_line(result.links@),
            if su == 0 { "✓ Suspect:    No suspect links"@ } else { "✗ Suspect:    "@ + decimal(su) + " suspect links found"@ }
        ]);
    }
    let total = result.count_total_issues();
    r.push(string_of(""));
    if total == 0 {
        r.push(string_of("Repository is healthy (0 issues)"));
    } else {
        let x = labelled_count("Summary: ", total, " issues found");
        r.push(x);
        if result.paths.len() > 0 || result.links.len() > 0 {
            r.push(string_of(""));
            r.push(string_of("Run 'req validate --fix' to automatically repair fixable issues"));
        }
        if result.suspect.len() > 0 {
            r.push(string_of("Run 'req review --accept --all' to accept all suspect links"));
        }
    }
    proof {
        assert(texts(r@) =~= report_text(*result, requirement_count as nat, quiet));
    }
    r
}

/// The lines previewing what `--fix` repairs: the misplaced files and the
/// requirements with stale parent HRIDs.
pub open spec fn fix_preview_text(result: ValidationResult) -> Seq<Seq<char>> {
    let stale = positions_where(result.links@, |l: LinkIssue| l is StaleHrid);
    (if result.paths@.len() > 0 {
        seq!["Paths ("@ + decimal(result.paths@.len()) + " files):"@] + result.paths@.map_values(
            |p: PathIssue| "  • "@ + p.current_path@ + " → "@ + p.expected_path@,
        )
    } else {
        Seq::empty()
    }) + (if stale.len() > 0 {
        seq![""@, "Links ("@ + decimal(stale.len()) + " stale HRIDs):"@] + stale.map_values(
            |i: int| "  • "@ + stale_children(result.links@)[i],
        )
    } else {
        Seq::empty()
    })
}

/// The lines previewing what `--fix` repairs.
pub fn fix_preview_lines(result: &ValidationResult) -> (r: Vec<String>)
    ensures
        texts(r@) == fix_preview_text(*result),
{
    let mut r: Vec<String> = Vec::new();
    if result.paths.len() > 0 {
        let x = labelled_count("Paths (", result.paths.len(), " files):");
        r.push(x);
        let mut i: usize = 0;
        proof {
            assert(texts(r@) =~= seq!["Paths ("@ + decimal(result.paths@.len()) + " files):"@] + result.paths@.take(0).map_values(
                |p: PathIssue| "  • "@ + p.current_path@ + " → "@ + p.expected_path@,
            ));
        }
        while i < result.paths.len()
            invariant
                result.paths@.len() > 0,
                i <= result.paths@.len(),
                texts(r@) == seq!["Paths ("@ + decimal(result.paths@.len()) + " files):"@] + result.paths@.take(i as int).map_values(
                    |p: PathIssue| "  • "@ + p.current_path@ + " → "@ + p.expected_path@,
                ),
            decreases result.paths@.len() - i,
        {
            let mut x = string_of("  • ");
            push_str(&mut x, result.paths[i].current_path.as_str());
            push_str(&mut x, " → ");
            push_str(&mut x, result.paths[i].expected_path.as_str());
            let ghost rb = texts(r@);
            r.push(x);
            proof {
                assert(result.paths@.take(i + 1) =~= result.paths@.take(i as int).push(result.paths@[i as int]));
                assert(texts(r@) =~= rb.push(x@));
            }
            i = i + 1;
        }
        proof {
            assert(result.paths@.take(i as int) =~= result.paths@);
        }
    }
    let ghost mid = texts(r@);
    proof {
        if result.paths@.len() == 0 {
            assert(mid =~= Seq::<Seq<char>>::empty());
        }
    }
    let (_, _, stale) = categorize_link_issues(result.links.as_slice());
    let ghost ps = |l: LinkIssue| l is StaleHrid;
    let ghost pos = positions_where(result.links@, ps);
    proof {
        assert(ps == (|l: LinkIssue| l is StaleHrid));
    }
    if stale.len() > 0 {
        r.push(string_of(""));
        let x = labelled_count("Links (", stale.len(), " stale HRIDs):");
        r.push(x);
        let ghost head = texts(r@);
        proof {
            assert forall|k: int| 0 <= k < pos.len() implies 0 <= #[trigger] pos[k] < result.links@.len() by {
                lemma_positions_in_range(result.links@, ps, k);
            }
        }
        let mut i: usize = 0;
        while i < stale.len()
            invariant
                i <= stale@.len(),
                stale@.len() == pos.len(),
                pos == positions_where(result.links@, ps),
                ps == (|l: LinkIssue| l is StaleHrid),
                forall|k: int| 0 <= k < pos.len() ==> 0 <= #[trigger] pos[k] < result.links@.len(),
                forall|k: int| 0 <= k < stale@.len() ==> *stale@[k] == result.links@[pos[k]],
                texts(r@) == head + pos.take(i as int).map_values(|j: int| "  • "@ + stale_children(result.links@)[j]),
            decreases stale@.len() - i,
        {
            let ghost rb = texts(r@);
            proof {
                lemma_positions_in_range(result.links@, ps, i as int);
            }
            let ghost j = pos[i as int];
            let mut x = string_of("  • ");
            match stale[i] {
                LinkIssue::StaleHrid { child } => {
                    push_str(&mut x, child.as_str());
                },
                _ => {
                    proof {
                        assert(false);
                    }
                },
            }
            r.push(x);
            proof {
                assert(x@ == "  • "@ + stale_children(result.links@)[j]);
                assert(pos.take(i + 1) =~= pos.take(i as int).push(j));
                assert(texts(r@) =~= rb.push(x@));
            }
            i = i + 1;
        }
        proof {
            assert(pos.take(i as int) =~= pos);
        }
    }
    proof {
        assert(texts(r@) =~= mid + (if pos.len() > 0 {
            seq![""@, "Links ("@ + decimal(pos.len()) + " stale HRIDs):"@] + pos.map_values(
                |i: int| "  • "@ + stale_children(result.links@)[i],
            )
        } else {
            Seq::empty()
        }));
        assert(texts(r@) =~= fix_preview_text(*result));
    }
    r
}

/// Every position picked lies in range and its issue satisfies the pick.
proof fn lemma_positions_in_range(links: Seq<LinkIssue>, pick: spec_fn(LinkIssue) -> bool, i: int)
    requires
        0 <= i < positions_where(links, pick).len(),
    ensures
        0 <= positions_where(links, pick)[i] < links.len(),
        pick(links[positions_where(links, pick)[i]]),
    decreases links.len(),
{
    let prev = positions_where(links.drop_last(), pick);
    if pick(links.last()) && i == prev.len() {
    } else {
        lemma_positions_in_range(links.drop_last(), pick, i);
    }
}

/// `issues=N`: the one line of the summary output.
pub fn summary_line(result: &ValidationResult) -> (r: String)
    requires
        result.paths@.len() + result.links@.len() + result.suspect@.len() <= usize::MAX,
    ensures
        r@ == "issues="@ + decimal((result.paths@.len() + result.links@.len() + result.suspect@.len()) as nat),
{
    let mut x = string_of("issues=");
    push_str(&mut x, crate::rows::decimal_string(result.count_total_issues()).as_str());
    x
}

} // verus!
