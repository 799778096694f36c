//! The order of HRIDs: by namespace segments, then kind, then id, each
//! component as `Ord` on the stored strings and numbers orders it.

use vstd::prelude::*;

use crate::hrid::{Hrid, SpecHrid};
use crate::text::{lemma_text_lt_asym, lemma_text_lt_irrefl, lemma_text_lt_total, lemma_text_lt_trans, str_eq, str_lt, text_lt};

verus! {

/// Lexicographic order of segment lists, a proper prefix first.
pub open spec fn segs_lt(a: Seq<Seq<char>>, b: Seq<Seq<char>>) -> bool
    decreases a.len(),
{
    if a.len() == 0 {
        b.len() > 0
    } else if b.len() == 0 {
        false
    } else if a[0] != b[0] {
        text_lt(a[0], b[0])
    } else {
        segs_lt(a.drop_first(), b.drop_first())
    }
}

/// `a` sorts strictly before `b`.
pub open spec fn hrid_lt(a: SpecHrid, b: SpecHrid) -> bool {
    ||| segs_lt(a.namespace, b.namespace)
    ||| a.namespace == b.namespace && text_lt(a.kind, b.kind)
    ||| a.namespace == b.namespace && a.kind == b.kind && a.id < b.id
}

/// The values of a list of HRIDs, as a set.
pub open spec fn hrid_values(v: Seq<Hrid>) -> Set<SpecHrid> {
    v.map_values(|h: Hrid| h@).to_set()
}

/// Every HRID of the list sorts strictly before the ones after it.
pub open spec fn strictly_sorted(v: Seq<Hrid>) -> bool {
    forall|i: int, j: int| 0 <= i < j < v.len() ==> hrid_lt(#[trigger] v[i]@, #[trigger] v[j]@)
}

pub proof fn lemma_segs_lt_irrefl(a: Seq<Seq<char>>)
    ensures
        !segs_lt(a, a),
    decreases a.len(),
{
    if a.len() > 0 {
        lemma_segs_lt_irrefl(a.drop_first());
    }
}

pub proof fn lemma_segs_lt_total(a: Seq<Seq<char>>, b: Seq<Seq<char>>)
    requires
        a != b,
    ensures
        segs_lt(a, b) || segs_lt(b, a),
    decreases a.len(),
{
    if a.len() > 0 && b.len() > 0 {
        if a[0] == b[0] {
            if a.drop_first() == b.drop_first() {
                assert(a =~= seq![a[0]] + a.drop_first());
                assert(b =~= seq![b[0]] + b.drop_first());
            }
            lemma_segs_lt_total(a.drop_first(), b.drop_first());
        } else {
            lemma_text_lt_total(a[0], b[0]);
        }
    } else if a.len() == 0 && b.len() == 0 {
        assert(a =~= b);
    }
}

pub proof fn lemma_segs_lt_trans(a: Seq<Seq<char>>, b: Seq<Seq<char>>, c: Seq<Seq<char>>)
    requires
        segs_lt(a, b),
        segs_lt(b, c),
    ensures
        segs_lt(a, c),
    decreases a.len(),
{
    if a.len() > 0 && b.len() > 0 && c.len() > 0 {
        if a[0] == b[0] && b[0] == c[0] {
            lemma_segs_lt_trans(a.drop_first(), b.drop_first(), c.drop_first());
        } else if a[0] != b[0] && b[0] != c[0] {
            lemma_text_lt_trans(a[0], b[0], c[0]);
            if a[0] == c[0] {
                lemma_text_lt_irrefl(a[0]);
            }
        }
    }
}

pub proof fn lemma_hrid_lt_irrefl(a: SpecHrid)
    ensures
        !hrid_lt(a, a),
{
    lemma_segs_lt_irrefl(a.namespace);
    lemma_text_lt_irrefl(a.kind);
}

pub proof fn lemma_hrid_lt_total(a: SpecHrid, b: SpecHrid)
    requires
        a != b,
    ensures
        hrid_lt(a, b) || hrid_lt(b, a),
{
    if a.namespace != b.namespace {
        lemma_segs_lt_total(a.namespace, b.namespace);
    } else if a.kind != b.kind {
        lemma_text_lt_total(a.kind, b.kind);
    }
}

pub proof fn lemma_hrid_lt_trans(a: SpecHrid, b: SpecHrid, c: SpecHrid)
    requires
        hrid_lt(a, b),
        hrid_lt(b, c),
    ensures
        hrid_lt(a, c),
{
    if segs_lt(a.namespace, b.namespace) && segs_lt(b.namespace, c.namespace) {
        lemma_segs_lt_trans(a.namespace, b.namespace, c.namespace);
    } else if a.namespace == b.namespace && b.namespace == c.namespace {
        if text_lt(a.kind, b.kind) && text_lt(b.kind, c.kind) {
            lemma_text_lt_trans(a.kind, b.kind, c.kind);
        }
    }
}

pub proof fn lemma_hrid_lt_asym(a: SpecHrid, b: SpecHrid)
    requires
        hrid_lt(a, b),
    ensures
        !hrid_lt(b, a),
{
    if hrid_lt(b, a) {
        lemma_hrid_lt_trans(a, b, a);
        lemma_hrid_lt_irrefl(a);
    }
}

/// Whether `a` sorts strictly before `b`.
pub fn hrid_precedes(a: &Hrid, b: &Hrid) -> (r: bool)
    ensures
        r == hrid_lt(a@, b@),
{
    let na = a.namespace_segments();
    let nb = b.namespace_segments();
    let ghost sa = na@.map_values(|s: crate::hrid::NamespaceSegment| s@);
    let ghost sb = nb@.map_values(|s: crate::hrid::NamespaceSegment| s@);
    proof {
        assert(sa.skip(0) =~= sa);
        assert(sb.skip(0) =~= sb);
    }
    let mut i: usize = 0;
    while i < na.len() && i < nb.len() && str_eq(na[i].as_str(), nb[i].as_str())
        invariant
            i <= na@.len(),
            i <= nb@.len(),
            sa == na@.map_values(|s: crate::hrid::NamespaceSegment| s@),
            sb == nb@.map_values(|s: crate::hrid::NamespaceSegment| s@),
            sa == a@.namespace,
            sb == b@.namespace,
            segs_lt(sa, sb) == segs_lt(sa.skip(i as int), sb.skip(i as int)),
            sa.take(i as int) == sb.take(i as int),
        decreases na@.len() - i,
    {
        proof {
            assert(sa.skip(i as int).drop_first() =~= sa.skip(i + 1));
            assert(sb.skip(i as int).drop_first() =~= sb.skip(i + 1));
            assert(sa.take(i + 1) =~= sa.take(i as int).push(sa[i as int]));
            assert(sb.take(i + 1) =~= sb.take(i as int).push(sb[i as int]));
        }
        i = i + 1;
    }
    if i < na.len() && i < nb.len() {
        proof {
            assert(sa.skip(i as int)[0] == sa[i as int]);
            assert(sb.skip(i as int)[0] == sb[i as int]);
        }
        return str_lt(na[i].as_str(), nb[i].as_str());
    }
    if i < nb.len() {
        return true;
    }
    if i < na.len() {
        return false;
    }
    proof {
        assert(sa =~= sa.take(i as int));
        assert(sb =~= sb.take(i as int));
        lemma_segs_lt_irrefl(sa);
        lemma_text_lt_irrefl(a@.kind);
    }
    if str_eq(a.kind(), b.kind()) {
        a.id() < b.id()
    } else {
        proof {
            lemma_text_lt_total(a@.kind, b@.kind);
            if text_lt(b@.kind, a@.kind) {
                lemma_text_lt_asym(b@.kind, a@.kind);
            }
        }
        str_lt(a.kind(), b.kind())
    }
}

/// The HRIDs of `v`, each once, in ascending order.
pub fn sort_hrids(v: Vec<Hrid>) -> (r: Vec<Hrid>)
    ensures
        strictly_sorted(r@),
        hrid_values(r@) == hrid_values(v@),
{
    let mut out: Vec<Hrid> = Vec::new();
    let mut k: usize = 0;
    while k < v.len()
        invariant
            k <= v@.len(),
            strictly_sorted(out@),
            hrid_values(out@) == hrid_values(v@.take(k as int)),
        decreases v@.len() - k,
    {
        let x = v[k].clone();
        let mut p: usize = 0;
        while p < out.len() && hrid_precedes(&out[p], &x)
            invariant
                p <= out@.len(),
                forall|i: int| 0 <= i < p ==> hrid_lt(#[trigger] out@[i]@, x@),
            decreases out@.len() - p,
        {
            p = p + 1;
        }
        let ghost before = out@;
        proof {
            assert(v@.take(k + 1) =~= v@.take(k as int).push(v@[k as int]));
            v@.take(k as int).map_values(|h: Hrid| h@).lemma_push_to_set_commute(x@);
            assert(v@.take(k + 1).map_values(|h: Hrid| h@) =~= v@.take(k as int).map_values(|h: Hrid| h@).push(x@));
        }
        if p < out.len() && !hrid_precedes(&x, &out[p]) {
            proof {
                if out@[p as int]@ != x@ {
                    lemma_hrid_lt_total(out@[p as int]@, x@);
                }
                assert(before.map_values(|h: Hrid| h@).contains(x@)) by {
                    assert(before.map_values(|h: Hrid| h@)[p as int] == x@);
                }
                assert(hrid_values(out@) =~= hrid_values(v@.take(k + 1)));
            }
        } else {
            proof {
                if p < out@.len() {
                    lemma_hrid_lt_total(out@[p as int]@, x@);
                }
                assert forall|j: int| p <= j < before.len() implies hrid_lt(x@, #[trigger] before[j]@) by {
                    if j > p {
                        lemma_hrid_lt_trans(x@, before[p as int]@, before[j]@);
                    }
                }
            }
            out.insert(p, x);
            proof {
                assert forall|i: int, j: int| 0 <= i < j < out@.len() implies hrid_lt(#[trigger] out@[i]@, #[trigger] out@[j]@) by {
                    if j < p {
                        assert(out@[i] == before[i] && out@[j] == before[j]);
                    } else if j == p {
                        assert(out@[i] == before[i]);
                    } else if i < p {
                        assert(out@[i] == before[i] && out@[j] == before[j - 1]);
                        lemma_hrid_lt_trans(before[i]@, x@, before[j - 1]@);
                    } else if i == p {
                        assert(out@[j] == before[j - 1]);
                    } else {
                        assert(out@[i] == before[i - 1] && out@[j] == before[j - 1]);
                    }
                }
                assert(out@.map_values(|h: Hrid| h@) =~= before.map_values(|h: Hrid| h@).insert(p as int, x@));
                assert(hrid_values(out@) =~= hrid_values(v@.take(k + 1))) by {
                    let bs = before.map_values(|h: Hrid| h@);
                    let os = out@.map_values(|h: Hrid| h@);
                    assert forall|h: SpecHrid| os.to_set().contains(h) <==> bs.to_set().insert(x@).contains(h) by {
                        if os.to_set().contains(h) {
                            let j = choose|j: int| 0 <= j < os.len() && os[j] == h;
                            if j < p {
                                assert(bs[j] == h);
                            } else if j > p {
                                assert(bs[j - 1] == h);
                            }
                        }
                        if bs.to_set().contains(h) {
                            let j = choose|j: int| 0 <= j < bs.len() && bs[j] == h;
                            if j < p {
                                assert(os[j] == h);
                            } else {
                                assert(os[j + 1] == h);
                            }
                        }
                        if h == x@ {
                            assert(os[p as int] == h);
                        }
                    }
                }
            }
        }
        k = k + 1;
    }
    proof {
        assert(v@.take(k as int) =~= v@);
    }
    out
}

} // verus!
