//! The in-memory requirement tree: requirement content by UUID, HRIDs, and
//! the child → parent graph.
//!
//! Besides storage and lookup, the tree links, unlinks and renames
//! requirements, answers reachability questions, refuses links that would
//! close a cycle, finds the cycles already present, and tracks links whose
//! recorded parent fingerprint or HRID has gone stale.

use vstd::prelude::*;

use std::collections::HashMap;

use crate::graph::{
    graph_add_edge, graph_add_node, graph_contains_edge, graph_contains_node, graph_edge_weight, graph_edges,
    graph_remove_edge,
    graph_neighbours, graph_new, graph_node_list, graph_nodes, graph_remove_node,
    neighbour_set, EdgeData, Graph, edges_without,
};
use crate::hrid::{Hrid, KindString, NamespaceSegment, SpecHrid, spec_display};
use crate::requirement::{
    copy_parents, copy_strings, parents_view, tags_view, uuid_text, uuid_to_string, Parent,
    ParentView, Requirement, Timestamp,
};
use crate::text::{copy_string, join, push_str, string_of, str_eq};
use crate::fingerprint::{fingerprint, spec_fingerprint};

verus! {

broadcast use vstd::std_specs::hash::group_hash_axioms;

/// The content of one requirement.
pub struct RequirementData {
    pub title: String,
    pub body: String,
    pub tags: Vec<String>,
    pub created: Timestamp,
}

/// The abstract content of one requirement in the tree.
pub struct ReqSpec {
    pub hrid: SpecHrid,
    pub title: Seq<char>,
    pub body: Seq<char>,
    pub tags: Seq<Seq<char>>,
    pub created: Timestamp,
}

/// The abstract content of a link: the parent HRID and fingerprint it
/// records.
pub open spec fn link_view(e: EdgeData) -> ParentView {
    ParentView { hrid: e.parent_hrid@, fingerprint: e.fingerprint@ }
}

struct Entry {
    uuid: u128,
    hrid: Hrid,
    data: RequirementData,
}

spec fn entry_spec(e: Entry) -> ReqSpec {
    ReqSpec {
        hrid: e.hrid@,
        title: e.data.title@,
        body: e.data.body@,
        tags: tags_view(e.data.tags@),
        created: e.data.created,
    }
}

/// A borrowed-free snapshot of one requirement with its relationships.
#[derive(Debug)]
pub struct RequirementView {
    pub uuid: u128,
    pub hrid: Hrid,
    pub created: Timestamp,
    pub title: String,
    pub body: String,
    pub tags: Vec<String>,
    /// Parent links, as stored on the edges leaving this requirement.
    pub parents: Vec<(u128, Parent)>,
    /// The UUIDs of the requirements that link to this one.
    pub children: Vec<u128>,
}

/// Errors from [`Tree::insert`].
#[derive(Debug)]
pub enum TreeInsertError {
    /// A requirement with this UUID is already present.
    DuplicateUuid { uuid: u128 },
    /// A requirement with this HRID is already present under another UUID.
    DuplicateHrid { hrid: Hrid, new_uuid: u128, existing_uuid: u128 },
}

/// The in-memory requirement tree.
pub struct Tree {
    entries: Vec<Entry>,
    /// The position in `entries` of each requirement, by UUID.
    index: HashMap<u128, usize>,
    graph: Graph,
}

/// The set of UUIDs the sequence mentions at index `i`.
pub open spec fn seq_has<T>(s: Seq<T>, x: T) -> bool {
    exists|i: int| 0 <= i < s.len() && s[i] == x
}

/// The first component of each pair.
pub open spec fn firsts<T>(s: Seq<(u128, T)>) -> Seq<u128> {
    s.map_values(|p: (u128, T)| p.0)
}

impl Tree {
    /// The UUIDs of the requirements, in storage order.
    pub closed spec fn order(&self) -> Seq<u128> {
        self.entries@.map_values(|e: Entry| e.uuid)
    }

    /// The requirements by UUID.
    pub closed spec fn reqs(&self) -> Map<u128, ReqSpec> {
        reqs_of(self.entries@)
    }

    /// The graph's nodes: every requirement, plus parents referenced by links
    /// that are not (or no longer) requirements.
    pub closed spec fn nodes(&self) -> Set<u128> {
        graph_nodes(self.graph)
    }

    /// The links, keyed by `(child, parent)`.
    pub closed spec fn links(&self) -> Map<(u128, u128), ParentView> {
        graph_edges(self.graph).map_values(|e: EdgeData| link_view(e))
    }

    /// Well-formedness: distinct UUIDs and HRIDs, every requirement is a
    /// graph node, every link joins graph nodes and starts at a requirement,
    /// and the graph is finite.
    pub closed spec fn wf(&self) -> bool {
        &&& forall|i: int, j: int|
            0 <= i < self.entries@.len() && 0 <= j < self.entries@.len() && i != j
                ==> self.entries@[i].uuid != self.entries@[j].uuid
        &&& forall|i: int, j: int|
            0 <= i < self.entries@.len() && 0 <= j < self.entries@.len() && i != j
                ==> self.entries@[i].hrid@ != self.entries@[j].hrid@
        &&& forall|i: int| 0 <= i < self.entries@.len() ==> graph_nodes(self.graph).contains(
            #[trigger] self.entries@[i].uuid,
        )
        &&& forall|k: (u128, u128)| #[trigger]
            graph_edges(self.graph).contains_key(k) ==> graph_nodes(self.graph).contains(k.0)
                && graph_nodes(self.graph).contains(k.1) && seq_has(self.order(), k.0)
        &&& graph_nodes(self.graph).finite()
        &&& graph_edges(self.graph).dom().finite()
        &&& indexes(self.index@, self.entries@)
    }

    proof fn lemma_reqs_at(&self, i: int)
        requires
            self.wf(),
            0 <= i < self.entries@.len(),
        ensures
            self.reqs().contains_key(self.entries@[i].uuid),
            self.reqs()[self.entries@[i].uuid] == entry_spec(self.entries@[i]),
            self.order()[i] == self.entries@[i].uuid,
    {
        let u = self.entries@[i].uuid;
        assert(self.order()[i] == u);
        assert(seq_has(self.order(), u));
        let j = choose|j: int| 0 <= j < self.entries@.len() && self.entries@[j].uuid == u;
        assert(j == i);
    }

    proof fn lemma_reqs_dom(&self, u: u128)
        requires
            self.wf(),
        ensures
            self.reqs().contains_key(u) == exists|i: int|
                0 <= i < self.entries@.len() && self.entries@[i].uuid == u,
    {
        if self.reqs().contains_key(u) {
            let i = choose|i: int| 0 <= i < self.order().len() && self.order()[i] == u;
            assert(self.entries@[i].uuid == u);
        }
        if exists|i: int| 0 <= i < self.entries@.len() && self.entries@[i].uuid == u {
            let i = choose|i: int| 0 <= i < self.entries@.len() && self.entries@[i].uuid == u;
            assert(self.order()[i] == u);
        }
    }

    /// The position of the requirement with this UUID.
    fn index_of_uuid(&self, uuid: u128) -> (r: Option<usize>)
        requires
            self.wf(),
        ensures
            match r {
                Some(i) => i < self.entries@.len() && self.entries@[i as int].uuid == uuid,
                None => !self.reqs().contains_key(uuid),
            },
    {
        match self.index.get(&uuid) {
            Some(i) => Some(*i),
            None => {
                proof {
                    self.lemma_reqs_dom(uuid);
                    if self.reqs().contains_key(uuid) {
                        let t = choose|t: int| 0 <= t < self.entries@.len() && self.entries@[t].uuid == uuid;
                        assert(self.index@.contains_key(self.entries@[t].uuid));
                    }
                }
                None
            },
        }
    }

    /// The position of the requirement with this HRID.
    fn index_of_hrid(&self, hrid: &Hrid) -> (r: Option<usize>)
        requires
            self.wf(),
        ensures
            match r {
                Some(i) => i < self.entries@.len() && self.entries@[i as int].hrid@ == hrid@,
                None => forall|j: int|
                    0 <= j < self.entries@.len() ==> self.entries@[j].hrid@ != hrid@,
            },
    {
        let mut i: usize = 0;
        while i < self.entries.len()
            invariant
                i <= self.entries@.len(),
                forall|j: int| 0 <= j < i ==> self.entries@[j].hrid@ != hrid@,
            decreases self.entries@.len() - i,
        {
            if self.entries[i].hrid.same_as(hrid) {
                return Some(i);
            }
            i = i + 1;
        }
        None
    }

    /// Some requirement has this HRID.
    pub open spec fn has_hrid(&self, h: SpecHrid) -> bool {
        exists|u: u128| self.reqs().contains_key(u) && #[trigger] self.reqs()[u].hrid == h
    }

    /// The UUID of the requirement with this HRID, if any.
    pub fn uuid_for_hrid(&self, hrid: &Hrid) -> (r: Option<u128>)
        requires
            self.wf(),
        ensures
            r is Some == self.has_hrid(hrid@),
            r matches Some(u) ==> self.reqs().contains_key(u) && self.reqs()[u].hrid == hrid@,
    {
        match self.index_of_hrid(hrid) {
            Some(i) => {
                proof {
                    self.lemma_reqs_at(i as int);
                    let u = self.entries@[i as int].uuid;
                    assert(self.reqs().contains_key(u) && self.reqs()[u].hrid == hrid@);
                }
                Some(self.entries[i].uuid)
            },
            None => {
                proof {
                    if self.has_hrid(hrid@) {
                        let u = choose|u: u128|
                            self.reqs().contains_key(u) && #[trigger] self.reqs()[u].hrid == hrid@;
                        self.lemma_reqs_dom(u);
                        let i = choose|i: int|
                            0 <= i < self.entries@.len() && self.entries@[i].uuid == u;
                        self.lemma_reqs_at(i);
                    }
                }
                None
            },
        }
    }

    /// The HRID of the requirement with this UUID.
    pub fn hrid(&self, uuid: u128) -> (r: Option<&Hrid>)
        requires
            self.wf(),
        ensures
            r is Some == self.reqs().contains_key(uuid),
            r matches Some(h) ==> h@ == self.reqs()[uuid].hrid,
    {
        match self.index_of_uuid(uuid) {
            Some(i) => {
                proof {
                    self.lemma_reqs_at(i as int);
                }
                Some(&self.entries[i].hrid)
            },
            None => None,
        }
    }

    /// Inserts a requirement and its parent links.
    pub fn insert(&mut self, requirement: Requirement) -> (r: Result<(), TreeInsertError>)
        requires
            old(self).wf(),
        ensures
            final(self).wf(),
            match r {
                Ok(()) => {
                    &&& !old(self).reqs().contains_key(requirement.uuid)
                    &&& !old(self).has_hrid(requirement.hrid@)
                    &&& final(self).reqs() == old(self).reqs().insert(
                        requirement.uuid,
                        ReqSpec {
                            hrid: requirement.hrid@,
                            title: requirement.title@,
                            body: requirement.body@,
                            tags: tags_view(requirement.tags@),
                            created: requirement.created,
                        },
                    )
                    &&& final(self).nodes() == old(self).nodes().insert(requirement.uuid).union(
                        firsts(parents_view(requirement.parents@)).to_set(),
                    )
                    &&& final(self).links() == with_parent_links(
                        old(self).links(),
                        requirement.uuid,
                        parents_view(requirement.parents@),
                    )
                },
                Err(TreeInsertError::DuplicateUuid { uuid }) => {
                    &&& uuid == requirement.uuid
                    &&& old(self).reqs().contains_key(requirement.uuid)
                    &&& *final(self) == *old(self)
                },
                Err(TreeInsertError::DuplicateHrid { hrid, new_uuid, existing_uuid }) => {
                    &&& hrid@ == requirement.hrid@
                    &&& new_uuid == requirement.uuid
                    &&& !old(self).reqs().contains_key(requirement.uuid)
                    &&& old(self).reqs().contains_key(existing_uuid)
                    &&& old(self).reqs()[existing_uuid].hrid == requirement.hrid@
                    &&& *final(self) == *old(self)
                },
            },
    {
        let uuid = requirement.uuid;
        if self.index_of_uuid(uuid).is_some() {
            proof {
                let i = choose|i: int| 0 <= i < self.entries@.len() && self.entries@[i].uuid == uuid;
                self.lemma_reqs_dom(uuid);
            }
            return Err(TreeInsertError::DuplicateUuid { uuid });
        }
        match self.uuid_for_hrid(&requirement.hrid) {
            Some(existing_uuid) => {
                let hrid = requirement.hrid;
                return Err(TreeInsertError::DuplicateHrid { hrid, new_uuid: uuid, existing_uuid });
            },
            None => {},
        }
        let ghost old_self = *self;
        let Requirement { uuid: _, hrid, created, title, body, tags, parents } = requirement;
        graph_add_node(&mut self.graph, uuid);
        let ghost pv = parents_view(parents@);
        let ghost base = graph_edges(self.graph);
        let mut k: usize = 0;
        while k < parents.len()
            invariant
                k <= parents@.len(),
                pv == parents_view(parents@),
                graph_nodes(self.graph) == graph_nodes(old_self.graph).insert(uuid).union(
                    firsts(pv.take(k as int)).to_set(),
                ),
                graph_edges(self.graph).map_values(|e: EdgeData| link_view(e)) == with_parent_links(
                    graph_edges(old_self.graph).map_values(|e: EdgeData| link_view(e)),
                    uuid,
                    pv.take(k as int),
                ),
                forall|q: (u128, u128)| #[trigger]
                    graph_edges(self.graph).contains_key(q) ==> (graph_edges(old_self.graph).contains_key(q)
                        || q.0 == uuid) && graph_nodes(self.graph).contains(q.0) && graph_nodes(self.graph).contains(q.1),
                forall|q: (u128, u128)| #[trigger]
                    graph_edges(old_self.graph).contains_key(q) ==> graph_nodes(old_self.graph).contains(q.0)
                        && graph_nodes(old_self.graph).contains(q.1) && seq_has(old_self.order(), q.0),
                graph_edges(self.graph).dom().finite(),
                graph_nodes(self.graph).finite(),
                graph_edges(old_self.graph).dom().finite(),
                self.entries == old_self.entries,
                self.index == old_self.index,
            decreases parents@.len() - k,
        {
            let parent_uuid = parents[k].0;
            let edge = EdgeData {
                parent_hrid: parents[k].1.hrid.clone(),
                fingerprint: copy_string(&parents[k].1.fingerprint),
            };
            let ghost before = graph_edges(self.graph);
            graph_add_edge(&mut self.graph, uuid, parent_uuid, edge);
            proof {
                assert(pv.take(k + 1).drop_last() =~= pv.take(k as int));
                assert(pv.take(k + 1).last() == pv[k as int]);
                assert(firsts(pv.take(k + 1)) =~= firsts(pv.take(k as int)).push(parent_uuid));
                firsts(pv.take(k as int)).lemma_push_to_set_commute(parent_uuid);
                assert(graph_nodes(self.graph) =~= graph_nodes(old_self.graph).insert(uuid).union(
                    firsts(pv.take(k + 1)).to_set(),
                ));
                assert(graph_edges(self.graph).map_values(|e: EdgeData| link_view(e)) =~= before.map_values(
                    |e: EdgeData| link_view(e),
                ).insert((uuid, parent_uuid), pv[k as int].1));
            }
            k = k + 1;
        }
        proof {
            assert(pv.take(parents@.len() as int) =~= pv);
        }
        self.index.insert(uuid, self.entries.len());
        self.entries.push(Entry { uuid, hrid, data: RequirementData { title, body, tags, created } });
        proof {
            let n = self.entries@.len();
            assert(self.order() =~= old_self.order().push(uuid));
            assert forall|i: int, j: int|
                0 <= i < n && 0 <= j < n && i != j implies self.entries@[i].uuid
                != self.entries@[j].uuid by {
                if i == n - 1 {
                    assert(!seq_has(old_self.order(), uuid)) by {
                        old_self.lemma_reqs_dom(uuid);
                        if seq_has(old_self.order(), uuid) {
                            let t = choose|t: int| 0 <= t < old_self.order().len() && old_self.order()[t] == uuid;
                            assert(old_self.entries@[t].uuid == uuid);
                        }
                    }
                    assert(old_self.order()[j] == self.entries@[j].uuid);
                } else if j == n - 1 {
                    assert(!seq_has(old_self.order(), uuid)) by {
                        if seq_has(old_self.order(), uuid) {
                            let t = choose|t: int| 0 <= t < old_self.order().len() && old_self.order()[t] == uuid;
                            assert(old_self.entries@[t].uuid == uuid);
                            old_self.lemma_reqs_at(t);
                        }
                    }
                    assert(old_self.order()[i] == self.entries@[i].uuid);
                }
            }
            assert forall|i: int, j: int|
                0 <= i < n && 0 <= j < n && i != j implies self.entries@[i].hrid@
                != self.entries@[j].hrid@ by {
                if i == n - 1 {
                    old_self.lemma_reqs_at(j);
                    let u = old_self.entries@[j].uuid;
                    assert(old_self.reqs()[u].hrid == old_self.entries@[j].hrid@);
                } else if j == n - 1 {
                    old_self.lemma_reqs_at(i);
                    let u = old_self.entries@[i].uuid;
                    assert(old_self.reqs()[u].hrid == old_self.entries@[i].hrid@);
                }
            }
            assert forall|k: (u128, u128)| #[trigger]
                graph_edges(self.graph).contains_key(k) implies graph_nodes(self.graph).contains(k.0)
                && graph_nodes(self.graph).contains(k.1) && seq_has(self.order(), k.0) by {
                if graph_edges(old_self.graph).contains_key(k) {
                    let t = choose|t: int| 0 <= t < old_self.order().len() && old_self.order()[t] == k.0;
                    assert(self.order()[t] == k.0);
                } else {
                    assert(self.order()[n - 1] == uuid);
                }
            }
            assert forall|i: int| 0 <= i < n implies graph_nodes(self.graph).contains(
                #[trigger] self.entries@[i].uuid,
            ) by {
                if i < n - 1 {
                    assert(self.entries@[i] == old_self.entries@[i]);
                }
            }
            assert forall|u: u128| #[trigger] self.index@.contains_key(u) implies self.index@[u] < n
                && self.entries@[self.index@[u] as int].uuid == u by {
                if u != uuid {
                    assert(old_self.index@.contains_key(u));
                    assert(self.entries@[self.index@[u] as int] == old_self.entries@[old_self.index@[u] as int]);
                }
            }
            assert forall|i: int| 0 <= i < n implies self.index@.contains_key(#[trigger] self.entries@[i].uuid) by {
                if i < n - 1 {
                    assert(self.entries@[i] == old_self.entries@[i]);
                    assert(old_self.index@.contains_key(old_self.entries@[i].uuid));
                }
            }
            assert(self.wf());
            assert forall|u: u128| #[trigger] self.reqs().contains_key(u) == old_self.reqs().insert(
                uuid,
                entry_spec(self.entries@[n - 1]),
            ).contains_key(u) by {
                self.lemma_reqs_dom(u);
                old_self.lemma_reqs_dom(u);
                if exists|i: int| 0 <= i < old_self.entries@.len() && old_self.entries@[i].uuid == u {
                    let i = choose|i: int| 0 <= i < old_self.entries@.len() && old_self.entries@[i].uuid == u;
                    assert(self.entries@[i].uuid == u);
                }
                if u == uuid {
                    assert(self.entries@[n - 1].uuid == u);
                }
                if exists|i: int| 0 <= i < self.entries@.len() && self.entries@[i].uuid == u {
                    let i = choose|i: int| 0 <= i < self.entries@.len() && self.entries@[i].uuid == u;
                    if i < n - 1 {
                        assert(old_self.entries@[i].uuid == u);
                    }
                }
            }
            assert forall|u: u128| #[trigger] self.reqs().contains_key(u) implies self.reqs()[u]
                == old_self.reqs().insert(uuid, entry_spec(self.entries@[n - 1]))[u] by {
                self.lemma_reqs_dom(u);
                let i = choose|i: int| 0 <= i < self.entries@.len() && self.entries@[i].uuid == u;
                self.lemma_reqs_at(i);
                if i < n - 1 {
                    assert(old_self.entries@[i] == self.entries@[i]);
                    old_self.lemma_reqs_at(i);
                }
            }
            assert(self.reqs() =~= old_self.reqs().insert(uuid, entry_spec(self.entries@[n - 1])));
        }
        Ok(())
    }
}


impl Default for Tree {
    /// An empty tree.
    fn default() -> (r: Self)
        ensures
            r.wf(),
            r.reqs().dom().is_empty(),
            r.nodes().is_empty(),
            r.links().dom().is_empty(),
    {
        let r = Tree { entries: Vec::new(), index: HashMap::new(), graph: graph_new() };
        assert(r.index@ =~= Map::<u128, usize>::empty());
        assert(r.reqs().dom() =~= Set::<u128>::empty());
        assert(r.links().dom() =~= Set::<(u128, u128)>::empty());
        r
    }
}

impl Tree {
    /// The parents `u` links to.
    pub open spec fn parents_of(&self, u: u128) -> Set<u128> {
        Set::new(|p: u128| self.links().contains_key((u, p)))
    }

    /// The children linking to `u`.
    pub open spec fn children_of(&self, u: u128) -> Set<u128> {
        Set::new(|c: u128| self.links().contains_key((c, u)))
    }

    /// `v` lists the parent links of `u` exactly: each parent once, with the
    /// reference stored on its link.
    pub open spec fn lists_parent_links(&self, u: u128, v: Seq<(u128, ParentView)>) -> bool {
        &&& firsts(v).no_duplicates()
        &&& firsts(v).to_set() == self.parents_of(u)
        &&& forall|i: int| 0 <= i < v.len() ==> self.links()[(u, #[trigger] v[i].0)] == v[i].1
    }

    /// `v` is an exact snapshot of requirement `u` with its relationships.
    pub open spec fn describes(&self, u: u128, v: RequirementView) -> bool {
        &&& self.reqs().contains_key(u)
        &&& v.uuid == u
        &&& v.hrid@ == self.reqs()[u].hrid
        &&& v.title@ == self.reqs()[u].title
        &&& v.body@ == self.reqs()[u].body
        &&& tags_view(v.tags@) == self.reqs()[u].tags
        &&& v.created == self.reqs()[u].created
        &&& self.lists_parent_links(u, parents_view(v.parents@))
        &&& v.children@.no_duplicates()
        &&& v.children@.to_set() == self.children_of(u)
    }

    proof fn lemma_neighbours(&self, u: u128)
        requires
            self.wf(),
        ensures
            neighbour_set(graph_edges(self.graph), u, true) == self.parents_of(u),
            neighbour_set(graph_edges(self.graph), u, false) == self.children_of(u),
    {
        assert(neighbour_set(graph_edges(self.graph), u, true) =~= self.parents_of(u));
        assert(neighbour_set(graph_edges(self.graph), u, false) =~= self.children_of(u));
    }

    /// The children of `uuid`, each once.
    pub fn children(&self, uuid: u128) -> (r: Vec<u128>)
        requires
            self.wf(),
        ensures
            r@.no_duplicates(),
            r@.to_set() == self.children_of(uuid),
    {
        proof {
            self.lemma_neighbours(uuid);
        }
        graph_neighbours(&self.graph, uuid, false)
    }

    /// The parent links of `uuid`, each parent once with its stored reference.
    fn parent_links(&self, uuid: u128) -> (r: Vec<(u128, Parent)>)
        requires
            self.wf(),
        ensures
            self.lists_parent_links(uuid, parents_view(r@)),
    {
        proof {
            self.lemma_neighbours(uuid);
        }
        let ps = graph_neighbours(&self.graph, uuid, true);
        let mut r: Vec<(u128, Parent)> = Vec::new();
        let mut i: usize = 0;
        while i < ps.len()
            invariant
                i <= ps@.len(),
                ps@.no_duplicates(),
                ps@.to_set() == self.parents_of(uuid),
                r@.len() == i,
                forall|j: int| 0 <= j < i ==> (#[trigger] r@[j]).0 == ps@[j],
                forall|j: int| 0 <= j < i ==> self.links()[(uuid, (#[trigger] r@[j]).0)] == r@[j].1@,
            decreases ps@.len() - i,
        {
            let p = ps[i];
            assert(ps@.to_set().contains(p));
            let w = graph_edge_weight(&self.graph, uuid, p);
            match w {
                Some(e) => {
                    r.push((p, Parent { hrid: e.parent_hrid.clone(), fingerprint: copy_string(&e.fingerprint) }));
                },
                None => {
                    assert(false);
                },
            }
            i = i + 1;
        }
        proof {
            let v = parents_view(r@);
            assert(firsts(v) =~= ps@);
        }
        r
    }

    /// The parents of `uuid` with the fingerprints stored on the links.
    pub fn parents(&self, uuid: u128) -> (r: Vec<(u128, String)>)
        requires
            self.wf(),
        ensures
            r@.map_values(|p: (u128, String)| p.0).no_duplicates(),
            r@.map_values(|p: (u128, String)| p.0).to_set() == self.parents_of(uuid),
            forall|i: int|
                0 <= i < r@.len() ==> self.links()[(uuid, (#[trigger] r@[i]).0)].fingerprint
                    == r@[i].1@,
    {
        let links = self.parent_links(uuid);
        let mut r: Vec<(u128, String)> = Vec::new();
        let mut i: usize = 0;
        while i < links.len()
            invariant
                i <= links@.len(),
                self.lists_parent_links(uuid, parents_view(links@)),
                r@.len() == i,
                forall|j: int| 0 <= j < i ==> (#[trigger] r@[j]).0 == links@[j].0 && r@[j].1@
                    == links@[j].1.fingerprint@,
            decreases links@.len() - i,
        {
            r.push((links[i].0, copy_string(&links[i].1.fingerprint)));
            i = i + 1;
        }
        proof {
            let v = parents_view(links@);
            assert(r@.map_values(|p: (u128, String)| p.0) =~= firsts(v));
            assert forall|j: int| 0 <= j < r@.len() implies self.links()[(uuid, (#[trigger] r@[j]).0)].fingerprint
                == r@[j].1@ by {
                assert(v[j].0 == links@[j].0);
            }
        }
        r
    }

    fn view_at(&self, i: usize) -> (r: RequirementView)
        requires
            self.wf(),
            i < self.entries@.len(),
        ensures
            self.describes(self.entries@[i as int].uuid, r),
    {
        proof {
            self.lemma_reqs_at(i as int);
        }
        let e = &self.entries[i];
        RequirementView {
            uuid: e.uuid,
            hrid: e.hrid.clone(),
            created: e.data.created,
            title: copy_string(&e.data.title),
            body: copy_string(&e.data.body),
            tags: copy_strings(e.data.tags.as_slice()),
            parents: self.parent_links(e.uuid),
            children: self.children(e.uuid),
        }
    }

    /// A snapshot of the requirement with this UUID.
    pub fn requirement(&self, uuid: u128) -> (r: Option<RequirementView>)
        requires
            self.wf(),
        ensures
            r is Some == self.reqs().contains_key(uuid),
            r matches Some(v) ==> self.describes(uuid, v),
    {
        match self.index_of_uuid(uuid) {
            Some(i) => Some(self.view_at(i)),
            None => None,
        }
    }

    /// A snapshot of the requirement with this HRID.
    pub fn find_by_hrid(&self, hrid: &Hrid) -> (r: Option<RequirementView>)
        requires
            self.wf(),
        ensures
            r is Some == self.has_hrid(hrid@),
            r matches Some(v) ==> self.describes(v.uuid, v) && v.hrid@ == hrid@,
    {
        match self.uuid_for_hrid(hrid) {
            Some(u) => self.requirement(u),
            None => None,
        }
    }

    /// Snapshots of every requirement, in storage order.
    pub fn iter(&self) -> (r: Vec<RequirementView>)
        requires
            self.wf(),
        ensures
            r@.len() == self.order().len(),
            forall|i: int| 0 <= i < r@.len() ==> self.describes(self.order()[i], #[trigger] r@[i]),
            self.order().no_duplicates(),
            self.order().to_set() == self.reqs().dom(),
    {
        let mut r: Vec<RequirementView> = Vec::new();
        let mut i: usize = 0;
        while i < self.entries.len()
            invariant
                self.wf(),
                i <= self.entries@.len(),
                r@.len() == i,
                forall|j: int| 0 <= j < i ==> self.describes(self.order()[j], #[trigger] r@[j]),
            decreases self.entries@.len() - i,
        {
            let v = self.view_at(i);
            proof {
                self.lemma_reqs_at(i as int);
            }
            r.push(v);
            i = i + 1;
        }
        proof {
            assert(self.order().no_duplicates()) by {
                assert forall|a: int, b: int| 0 <= a < self.order().len() && 0 <= b < self.order().len()
                    && a != b implies self.order()[a] != self.order()[b] by {
                    assert(self.order()[a] == self.entries@[a].uuid);
                    assert(self.order()[b] == self.entries@[b].uuid);
                }
            }
            assert forall|u: u128| #[trigger] self.order().to_set().contains(u) == self.reqs().dom().contains(u) by {
                self.lemma_reqs_dom(u);
                if self.order().to_set().contains(u) {
                    let t = choose|t: int| 0 <= t < self.order().len() && self.order()[t] == u;
                    assert(self.entries@[t].uuid == u);
                }
                if self.reqs().dom().contains(u) {
                    let t = choose|t: int| 0 <= t < self.entries@.len() && self.entries@[t].uuid == u;
                    assert(self.order()[t] == u);
                }
            }
            assert(self.order().to_set() =~= self.reqs().dom());
        }
        r
    }

    /// The requirement with this UUID as an owned value, with its parent
    /// links.
    pub fn get_requirement(&self, uuid: u128) -> (r: Option<Requirement>)
        requires
            self.wf(),
        ensures
            r is Some == self.reqs().contains_key(uuid),
            r matches Some(q) ==> {
                &&& q.uuid == uuid
                &&& q.hrid@ == self.reqs()[uuid].hrid
                &&& q.title@ == self.reqs()[uuid].title
                &&& q.body@ == self.reqs()[uuid].body
                &&& tags_view(q.tags@) == self.reqs()[uuid].tags
                &&& q.created == self.reqs()[uuid].created
                &&& self.lists_parent_links(uuid, parents_view(q.parents@))
            },
    {
        match self.requirement(uuid) {
            Some(v) => {
                let RequirementView { uuid, hrid, created, title, body, tags, parents, children: _ } = v;
                Some(Requirement { uuid, hrid, created, title, body, tags, parents })
            },
            None => None,
        }
    }
}


/// Errors from removing a requirement.
#[derive(Debug, PartialEq, Eq)]
pub enum RemoveError {
    /// No requirement has this UUID.
    NotFound(u128),
}

/// The new value of a field after an optional update.
pub open spec fn updated<T>(new: Option<T>, old: T) -> T {
    match new {
        Some(v) => v,
        None => old,
    }
}

/// An optional string update as text.
pub open spec fn text_update(s: Option<String>) -> Option<Seq<char>> {
    match s {
        Some(v) => Some(v@),
        None => None,
    }
}

/// An optional tag-list update as text.
pub open spec fn tags_update(t: Option<Vec<String>>) -> Option<Seq<Seq<char>>> {
    match t {
        Some(v) => Some(tags_view(v@)),
        None => None,
    }
}

fn strings_eq(a: &[String], b: &[String]) -> (r: bool)
    ensures
        r == (tags_view(a@) == tags_view(b@)),
{
    if a.len() != b.len() {
        assert(tags_view(a@).len() != tags_view(b@).len());
        return false;
    }
    let mut i: usize = 0;
    while i < a.len()
        invariant
            a@.len() == b@.len(),
            i <= a@.len(),
            forall|j: int| 0 <= j < i ==> a@[j]@ == b@[j]@,
        decreases a@.len() - i,
    {
        if !str_eq(a[i].as_str(), b[i].as_str()) {
            assert(tags_view(a@)[i as int] != tags_view(b@)[i as int]);
            return false;
        }
        i = i + 1;
    }
    assert(tags_view(a@) =~= tags_view(b@));
    true
}

impl Tree {
    /// An empty tree with room reserved for `capacity` requirements.
    pub fn with_capacity(capacity: usize) -> (r: Self)
        ensures
            r.wf(),
            r.reqs().dom().is_empty(),
            r.nodes().is_empty(),
            r.links().dom().is_empty(),
    {
        let r = Tree { entries: Vec::with_capacity(capacity), index: HashMap::with_capacity(capacity), graph: graph_new() };
        assert(r.reqs().dom() =~= Set::<u128>::empty());
        assert(r.links().dom() =~= Set::<(u128, u128)>::empty());
        r
    }

    /// Removes a requirement together with every link to or from it.
    pub fn remove_requirement(&mut self, uuid: u128) -> (r: Result<(), RemoveError>)
        requires
            old(self).wf(),
        ensures
            final(self).wf(),
            r is Ok == old(self).reqs().contains_key(uuid),
            r matches Err(e) ==> e == RemoveError::NotFound(uuid) && *final(self) == *old(self),
            r is Ok ==> {
                &&& final(self).reqs() == old(self).reqs().remove(uuid)
                &&& final(self).nodes() == old(self).nodes().remove(uuid)
                &&& final(self).links() == old(self).links().restrict(
                    old(self).links().dom().filter(|k: (u128, u128)| k.0 != uuid && k.1 != uuid),
                )
            },
    {
        let i = match self.index_of_uuid(uuid) {
            Some(i) => i,
            None => {
                return Err(RemoveError::NotFound(uuid));
            },
        };
        let ghost old_self = *self;
        proof {
            self.lemma_reqs_at(i as int);
            lemma_reqs_of_remove(self.entries@, i as int);
        }
        graph_remove_node(&mut self.graph, uuid);
        self.entries.remove(i);
        self.index = build_index(&self.entries);
        proof {
            let es = old_self.entries@;
            let ne = self.entries@;
            assert(ne == es.remove(i as int));
            assert forall|a: int, b: int|
                0 <= a < ne.len() && 0 <= b < ne.len() && a != b implies ne[a].hrid@ != ne[b].hrid@ by {
                let a2 = if a < i { a } else { a + 1 };
                let b2 = if b < i { b } else { b + 1 };
                assert(ne[a] == es[a2]);
                assert(ne[b] == es[b2]);
            }
            assert forall|a: int| 0 <= a < ne.len() implies graph_nodes(self.graph).contains(
                #[trigger] ne[a].uuid,
            ) by {
                let a2 = if a < i { a } else { a + 1 };
                assert(ne[a] == es[a2]);
                assert(a2 != i);
            }
            assert forall|k: (u128, u128)| #[trigger]
                graph_edges(self.graph).contains_key(k) implies graph_nodes(self.graph).contains(k.0)
                && graph_nodes(self.graph).contains(k.1) && seq_has(self.order(), k.0) by {
                assert(graph_edges(old_self.graph).contains_key(k));
                lemma_reqs_of_dom(es, k.0);
                let t = choose|t: int| 0 <= t < old_self.order().len() && old_self.order()[t] == k.0;
                assert(es[t].uuid == k.0);
                assert(t != i);
                let t2 = if t < i { t } else { t - 1 };
                assert(ne[t2] == es[t]);
                assert(self.order()[t2] == k.0);
            }
            assert(graph_edges(self.graph).dom() =~= graph_edges(old_self.graph).dom().filter(
                |k: (u128, u128)| k.0 != uuid && k.1 != uuid,
            ));
            assert(self.wf());
            assert(self.links() =~= old_self.links().restrict(
                old_self.links().dom().filter(|k: (u128, u128)| k.0 != uuid && k.1 != uuid),
            ));
        }
        Ok(())
    }

    /// Updates the content of a requirement; fields given as `None` are left
    /// unchanged. `None` when no requirement has this UUID, otherwise whether
    /// any field changed.
    pub fn update_requirement_content(
        &mut self,
        uuid: u128,
        title: Option<String>,
        body: Option<String>,
        tags: Option<Vec<String>>,
    ) -> (r: Option<bool>)
        requires
            old(self).wf(),
        ensures
            final(self).wf(),
            r is Some == old(self).reqs().contains_key(uuid),
            r is None ==> *final(self) == *old(self),
            r matches Some(changed) ==> {
                let o = old(self).reqs()[uuid];
                let n = ReqSpec {
                    hrid: o.hrid,
                    title: updated(text_update(title), o.title),
                    body: updated(text_update(body), o.body),
                    tags: updated(tags_update(tags), o.tags),
                    created: o.created,
                };
                &&& final(self).reqs() == old(self).reqs().insert(uuid, n)
                &&& final(self).nodes() == old(self).nodes()
                &&& final(self).links() == old(self).links()
                &&& changed == (n != o)
            },
    {
        let i = match self.index_of_uuid(uuid) {
            Some(i) => i,
            None => {
                return None;
            },
        };
        let ghost old_self = *self;
        proof {
            self.lemma_reqs_at(i as int);
        }
        let mut changed = false;
        let mut e = self.entries.remove(i);
        let ghost o = entry_spec(e);
        match title {
            Some(t) => {
                if !str_eq(e.data.title.as_str(), t.as_str()) {
                    e.data.title = t;
                    changed = true;
                }
            },
            None => {},
        }
        match body {
            Some(b) => {
                if !str_eq(e.data.body.as_str(), b.as_str()) {
                    e.data.body = b;
                    changed = true;
                }
            },
            None => {},
        }
        match tags {
            Some(t) => {
                if !strings_eq(e.data.tags.as_slice(), t.as_slice()) {
                    e.data.tags = t;
                    changed = true;
                }
            },
            None => {},
        }
        self.entries.insert(i, e);
        proof {
            let es = old_self.entries@;
            assert(self.entries@ =~= es.update(i as int, e));
            lemma_reqs_of_update(es, i as int, e);
            let ne = self.entries@;
            assert forall|a: int, b: int|
                0 <= a < ne.len() && 0 <= b < ne.len() && a != b implies ne[a].hrid@ != ne[b].hrid@ by {
                if a != i {
                    assert(ne[a] == es[a]);
                }
                if b != i {
                    assert(ne[b] == es[b]);
                }
            }
            assert forall|a: int| 0 <= a < ne.len() implies graph_nodes(self.graph).contains(
                #[trigger] ne[a].uuid,
            ) by {
                if a != i {
                    assert(ne[a] == es[a]);
                }
            }
            assert(self.order() =~= old_self.order());
            assert(self.wf());
        }
        Some(changed)
    }

    /// Some requirement has HRID `namespace-kind-id`.
    pub open spec fn has_id(&self, namespace: Seq<Seq<char>>, kind: Seq<char>, id: nat) -> bool {
        self.has_hrid(SpecHrid { namespace, kind, id })
    }

    /// Every requirement with this namespace and kind has an id below `bound`.
    pub open spec fn ids_below(&self, namespace: Seq<Seq<char>>, kind: Seq<char>, bound: nat) -> bool {
        forall|u: u128|
            self.reqs().contains_key(u) && #[trigger] self.reqs()[u].hrid.namespace == namespace
                && self.reqs()[u].hrid.kind == kind ==> self.reqs()[u].hrid.id < bound
    }

    /// The next free id for this namespace and kind: one more than the
    /// largest id in use, or 1 when none is.
    pub fn next_index(&self, namespace: &[NamespaceSegment], kind: &KindString) -> (r: usize)
        requires
            self.wf(),
            self.ids_below(namespace@.map_values(|s: NamespaceSegment| s@), kind@, usize::MAX as nat),
        ensures
            r >= 1,
            self.ids_below(namespace@.map_values(|s: NamespaceSegment| s@), kind@, r as nat),
            r == 1 || self.has_id(namespace@.map_values(|s: NamespaceSegment| s@), kind@, (r - 1) as nat),
    {
        let ghost ns = namespace@.map_values(|s: NamespaceSegment| s@);
        let probe = Hrid::new_with_namespace(clone_segment_slice(namespace), kind.clone(), 1);
        let mut best: usize = 0;
        let mut i: usize = 0;
        while i < self.entries.len()
            invariant
                self.wf(),
                probe@.namespace == ns,
                probe@.kind == kind@,
                self.ids_below(ns, kind@, usize::MAX as nat),
                i <= self.entries@.len(),
                forall|j: int| 0 <= j < i && (#[trigger] self.entries@[j]).hrid@.namespace == ns
                    && self.entries@[j].hrid@.kind == kind@ ==> self.entries@[j].hrid@.id <= best,
                best == 0 || self.has_id(ns, kind@, best as nat),
                best < usize::MAX,
            decreases self.entries@.len() - i,
        {
            let h = &self.entries[i].hrid;
            proof {
                self.lemma_reqs_at(i as int);
            }
            if h.same_prefix(&probe) && h.id() > best {
                best = h.id();
                proof {
                    let u = self.entries@[i as int].uuid;
                    assert(self.reqs()[u].hrid == h@);
                    assert(h@ == (SpecHrid { namespace: ns, kind: kind@, id: best as nat }));
                }
            }
            i = i + 1;
        }
        proof {
            assert forall|u: u128|
                self.reqs().contains_key(u) && #[trigger] self.reqs()[u].hrid.namespace == ns
                    && self.reqs()[u].hrid.kind == kind@ implies self.reqs()[u].hrid.id < best + 1 by {
                self.lemma_reqs_dom(u);
                let t = choose|t: int| 0 <= t < self.entries@.len() && self.entries@[t].uuid == u;
                self.lemma_reqs_at(t);
            }
        }
        best + 1
    }
}

fn clone_segment_slice(v: &[NamespaceSegment]) -> (r: Vec<NamespaceSegment>)
    ensures
        r@.map_values(|s: NamespaceSegment| s@) == v@.map_values(|s: NamespaceSegment| s@),
{
    let mut r: Vec<NamespaceSegment> = Vec::new();
    let mut i: usize = 0;
    while i < v.len()
        invariant
            i <= v@.len(),
            r@.len() == i,
            forall|j: int| 0 <= j < i ==> #[trigger] r@[j]@ == v@[j]@,
        decreases v@.len() - i,
    {
        r.push(v[i].clone());
        i = i + 1;
    }
    assert(r@.map_values(|s: NamespaceSegment| s@) =~= v@.map_values(|s: NamespaceSegment| s@));
    r
}


// ---------------------------------------------------------------------------
// Reachability
// ---------------------------------------------------------------------------

/// One step along a link: child → parent when `forward`, parent → child
/// otherwise.
pub open spec fn step(links: Map<(u128, u128), ParentView>, forward: bool, a: u128, b: u128) -> bool {
    if forward {
        links.contains_key((a, b))
    } else {
        links.contains_key((b, a))
    }
}

/// A non-empty sequence of nodes, each a step from the one before.
pub open spec fn is_walk(links: Map<(u128, u128), ParentView>, forward: bool, p: Seq<u128>) -> bool {
    &&& p.len() >= 1
    &&& forall|i: int| 0 <= i < p.len() - 1 ==> #[trigger] step(links, forward, p[i], p[i + 1])
}

/// `b` can be reached from `a` in zero or more steps.
pub open spec fn reaches(links: Map<(u128, u128), ParentView>, forward: bool, a: u128, b: u128) -> bool {
    exists|p: Seq<u128>| is_walk(links, forward, p) && p[0] == a && p.last() == b
}

/// Everything reachable from some start node.
pub open spec fn reachable_from(
    links: Map<(u128, u128), ParentView>,
    forward: bool,
    start: Seq<u128>,
) -> Set<u128> {
    Set::new(|v: u128| exists|s: u128| start.contains(s) && reaches(links, forward, s, v))
}

proof fn lemma_walk_extend(links: Map<(u128, u128), ParentView>, forward: bool, p: Seq<u128>, w: u128)
    requires
        is_walk(links, forward, p),
        step(links, forward, p.last(), w),
    ensures
        is_walk(links, forward, p.push(w)),
        p.push(w)[0] == p[0],
        p.push(w).last() == w,
{
    let q = p.push(w);
    assert forall|i: int| 0 <= i < q.len() - 1 implies #[trigger] step(links, forward, q[i], q[i + 1]) by {
        if i < p.len() - 1 {
            assert(q[i] == p[i] && q[i + 1] == p[i + 1]);
        } else {
            assert(q[i] == p.last());
        }
    }
}

proof fn lemma_closed_walk(
    links: Map<(u128, u128), ParentView>,
    forward: bool,
    c: Set<u128>,
    p: Seq<u128>,
)
    requires
        is_walk(links, forward, p),
        c.contains(p[0]),
        forall|v: u128, w: u128| c.contains(v) && #[trigger] step(links, forward, v, w) ==> c.contains(w),
    ensures
        c.contains(p.last()),
    decreases p.len(),
{
    if p.len() > 1 {
        let q = p.drop_last();
        assert forall|i: int| 0 <= i < q.len() - 1 implies #[trigger] step(links, forward, q[i], q[i + 1]) by {
            assert(step(links, forward, p[i], p[i + 1]));
        }
        lemma_closed_walk(links, forward, c, q);
        let i = p.len() - 2;
        assert(step(links, forward, p[i], p[i + 1]));
        assert(q.last() == p[i]);
    }
}

proof fn lemma_unique_len_bound(s: Seq<u128>, bound: Set<u128>)
    requires
        s.no_duplicates(),
        bound.finite(),
        forall|i: int| 0 <= i < s.len() ==> bound.contains(#[trigger] s[i]),
    ensures
        s.len() <= bound.len(),
{
    s.unique_seq_to_set();
    assert(s.to_set().subset_of(bound));
    vstd::set_lib::lemma_len_subset(s.to_set(), bound);
}

fn vec_contains(v: &Vec<u128>, x: u128) -> (r: bool)
    ensures
        r == v@.contains(x),
{
    let mut i: usize = 0;
    while i < v.len()
        invariant
            i <= v@.len(),
            forall|j: int| 0 <= j < i ==> v@[j] != x,
        decreases v@.len() - i,
    {
        if v[i] == x {
            return true;
        }
        i = i + 1;
    }
    false
}

/// Sorts distinct UUIDs into ascending order.
pub fn sort_ascending(v: Vec<u128>) -> (r: Vec<u128>)
    requires
        v@.no_duplicates(),
    ensures
        r@.no_duplicates(),
        r@.to_set() == v@.to_set(),
        forall|i: int, j: int| 0 <= i < j < r@.len() ==> r@[i] < r@[j],
{
    let mut r: Vec<u128> = Vec::new();
    let mut k: usize = 0;
    while k < v.len()
        invariant
            k <= v@.len(),
            v@.no_duplicates(),
            r@.to_set() == v@.take(k as int).to_set(),
            r@.len() == k,
            forall|i: int, j: int| 0 <= i < j < r@.len() ==> r@[i] < r@[j],
        decreases v@.len() - k,
    {
        let x = v[k];
        let mut pos: usize = 0;
        while pos < r.len() && r[pos] < x
            invariant
                pos <= r@.len(),
                forall|i: int| 0 <= i < pos ==> r@[i] < x,
            decreases r@.len() - pos,
        {
            pos = pos + 1;
        }
        proof {
            assert(!r@.to_set().contains(x)) by {
                if r@.to_set().contains(x) {
                    assert(v@.take(k as int).to_set().contains(x));
                    let t = choose|t: int| 0 <= t < v@.take(k as int).len() && v@.take(k as int)[t] == x;
                    assert(v@[t] == v@[k as int]);
                }
            }
            if pos < r@.len() {
                assert(r@[pos as int] != x) by {
                    assert(r@.to_set().contains(r@[pos as int]));
                }
            }
        }
        let ghost before = r@;
        r.insert(pos, x);
        proof {
            assert(r@ == before.insert(pos as int, x));
            assert forall|i: int, j: int| 0 <= i < j < r@.len() implies r@[i] < r@[j] by {
                if j < pos {
                    assert(r@[i] == before[i] && r@[j] == before[j]);
                } else if j == pos {
                    assert(r@[i] == before[i]);
                } else if i < pos {
                    assert(r@[i] == before[i] && r@[j] == before[j - 1]);
                    assert(before[j - 1] >= x);
                    if j - 1 > pos {
                        assert(before[pos as int] < before[j - 1]);
                    }
                } else if i == pos {
                    assert(r@[j] == before[j - 1]);
                    if j - 1 > pos {
                        assert(before[pos as int] < before[j - 1]);
                    }
                } else {
                    assert(r@[i] == before[i - 1] && r@[j] == before[j - 1]);
                }
            }
            assert(v@.take(k + 1) =~= v@.take(k as int).push(x));
            v@.take(k as int).lemma_push_to_set_commute(x);
            assert forall|y: u128| #[trigger] r@.to_set().contains(y) == before.to_set().insert(x).contains(y) by {
                if r@.to_set().contains(y) {
                    let t = choose|t: int| 0 <= t < r@.len() && r@[t] == y;
                    if t < pos {
                        assert(before[t] == y);
                    } else if t > pos {
                        assert(before[t - 1] == y);
                    }
                }
                if before.to_set().contains(y) {
                    let t = choose|t: int| 0 <= t < before.len() && before[t] == y;
                    if t < pos {
                        assert(r@[t] == y);
                    } else {
                        assert(r@[t + 1] == y);
                    }
                }
                if y == x {
                    assert(r@[pos as int] == x);
                }
            }
            assert(r@.to_set() =~= v@.take(k + 1).to_set());
        }
        k = k + 1;
    }
    proof {
        assert(v@.take(v@.len() as int) =~= v@);
        assert(r@.no_duplicates()) by {
            assert forall|i: int, j: int| 0 <= i < r@.len() && 0 <= j < r@.len() && i != j implies r@[i]
                != r@[j] by {
                if i < j {
                    assert(r@[i] < r@[j]);
                } else {
                    assert(r@[j] < r@[i]);
                }
            }
        }
    }
    r
}

impl Tree {
    proof fn lemma_links_dom(&self)
        ensures
            forall|k: (u128, u128)| #[trigger] self.links().contains_key(k) == graph_edges(self.graph).contains_key(k),
    {
    }

    proof fn lemma_step_nodes(&self, forward: bool, a: u128, b: u128)
        requires
            self.wf(),
            step(self.links(), forward, a, b),
        ensures
            self.nodes().contains(a),
            self.nodes().contains(b),
    {
        if forward {
            assert(graph_edges(self.graph).contains_key((a, b)));
        } else {
            assert(graph_edges(self.graph).contains_key((b, a)));
        }
    }

    /// Every node reachable from the start nodes, each once, found by a
    /// breadth-first search along `forward` (child → parent) or backward
    /// steps.
    fn closure(&self, start: &Vec<u128>, forward: bool) -> (r: Vec<u128>)
        requires
            self.wf(),
            start@.no_duplicates(),
            forall|i: int| 0 <= i < start@.len() ==> self.nodes().contains(#[trigger] start@[i]),
        ensures
            r@.no_duplicates(),
            r@.to_set() == reachable_from(self.links(), forward, start@),
    {
        let ghost links = self.links();
        let mut visited: Vec<u128> = Vec::new();
        let mut walks: Ghost<Seq<Seq<u128>>> = Ghost(Seq::empty());
        let mut k: usize = 0;
        while k < start.len()
            invariant
                self.wf(),
                links == self.links(),
                k <= start@.len(),
                start@.no_duplicates(),
                forall|i: int| 0 <= i < start@.len() ==> self.nodes().contains(#[trigger] start@[i]),
                visited@ == start@.take(k as int),
                walks@.len() == visited@.len(),
                forall|j: int| 0 <= j < visited@.len() ==> #[trigger] walks@[j] == seq![visited@[j]],
            decreases start@.len() - k,
        {
            let ghost x = start@[k as int];
            visited.push(start[k]);
            proof {
                walks@ = walks@.push(seq![x]);
            }
            k = k + 1;
            assert(visited@ =~= start@.take(k as int));
        }
        assert(start@.take(start@.len() as int) =~= start@);
        let mut head: usize = 0;
        while head < visited.len()
            invariant
                self.wf(),
                links == self.links(),
                head <= visited@.len(),
                visited@.no_duplicates(),
                forall|j: int| 0 <= j < start@.len() ==> visited@.contains(#[trigger] start@[j]),
                forall|j: int| 0 <= j < visited@.len() ==> self.nodes().contains(#[trigger] visited@[j]),
                walks@.len() == visited@.len(),
                forall|j: int|
                    0 <= j < visited@.len() ==> is_walk(links, forward, #[trigger] walks@[j])
                        && start@.contains(walks@[j][0]) && walks@[j].last() == visited@[j],
                forall|j: int, w: u128|
                    0 <= j < head && #[trigger] step(links, forward, visited@[j], w) ==> visited@.contains(w),
            decreases self.nodes().len() - visited@.len(), visited@.len() - head,
        {
            let node = visited[head];
            let ns = graph_neighbours(&self.graph, node, forward);
            proof {
                self.lemma_neighbours(node);
            }
            let ghost len_before = visited@.len();
            let mut t: usize = 0;
            while t < ns.len()
                invariant
                    self.wf(),
                    links == self.links(),
                    node == visited@[head as int],
                    head < visited@.len(),
                    len_before <= visited@.len(),
                    ns@.to_set() == neighbour_set(graph_edges(self.graph), node, forward),
                    t <= ns@.len(),
                    visited@.no_duplicates(),
                    forall|j: int| 0 <= j < start@.len() ==> visited@.contains(#[trigger] start@[j]),
                    forall|j: int| 0 <= j < visited@.len() ==> self.nodes().contains(#[trigger] visited@[j]),
                    walks@.len() == visited@.len(),
                    forall|j: int|
                        0 <= j < visited@.len() ==> is_walk(links, forward, #[trigger] walks@[j])
                            && start@.contains(walks@[j][0]) && walks@[j].last() == visited@[j],
                    forall|j: int, w: u128|
                        0 <= j < head && #[trigger] step(links, forward, visited@[j], w) ==> visited@.contains(w),
                    forall|i: int| 0 <= i < t ==> visited@.contains(#[trigger] ns@[i]),
                decreases ns@.len() - t,
            {
                let w = ns[t];
                proof {
                    assert(ns@.to_set().contains(w));
                    assert(step(links, forward, node, w));
                    self.lemma_step_nodes(forward, node, w);
                }
                if !vec_contains(&visited, w) {
                    let ghost prev = visited@;
                    let ghost pw = walks@[head as int];
                    visited.push(w);
                    proof {
                        lemma_walk_extend(links, forward, pw, w);
                        walks@ = walks@.push(pw.push(w));
                        assert forall|j: int| 0 <= j < start@.len() implies visited@.contains(#[trigger] start@[j]) by {
                            let q = choose|q: int| 0 <= q < prev.len() && prev[q] == start@[j];
                            assert(visited@[q] == start@[j]);
                        }
                        assert forall|j: int, x: u128|
                            0 <= j < head && #[trigger] step(links, forward, visited@[j], x) implies visited@.contains(x) by {
                            assert(visited@[j] == prev[j]);
                            let q = choose|q: int| 0 <= q < prev.len() && prev[q] == x;
                            assert(visited@[q] == x);
                        }
                        assert forall|i: int| 0 <= i < t + 1 implies visited@.contains(#[trigger] ns@[i]) by {
                            if i < t {
                                let q = choose|q: int| 0 <= q < prev.len() && prev[q] == ns@[i];
                                assert(visited@[q] == ns@[i]);
                            } else {
                                assert(visited@[prev.len() as int] == w);
                            }
                        }
                    }
                }
                t = t + 1;
            }
            proof {
                assert forall|j: int, x: u128|
                    0 <= j < head + 1 && #[trigger] step(links, forward, visited@[j], x) implies visited@.contains(x) by {
                    if j == head {
                        assert(neighbour_set(graph_edges(self.graph), node, forward).contains(x));
                        assert(ns@.to_set().contains(x));
                        let i = choose|i: int| 0 <= i < ns@.len() && ns@[i] == x;
                        assert(visited@.contains(ns@[i]));
                    }
                }
                lemma_unique_len_bound(visited@, self.nodes());
            }
            head = head + 1;
        }
        proof {
            let c = visited@.to_set();
            assert forall|v: u128, w: u128| c.contains(v) && #[trigger] step(links, forward, v, w) implies c.contains(w) by {
                let j = choose|j: int| 0 <= j < visited@.len() && visited@[j] == v;
                assert(visited@.contains(w));
            }
            assert forall|v: u128| #[trigger] c.contains(v) == reachable_from(links, forward, start@).contains(v) by {
                if c.contains(v) {
                    let j = choose|j: int| 0 <= j < visited@.len() && visited@[j] == v;
                    let p = walks@[j];
                    assert(is_walk(links, forward, p) && start@.contains(p[0]) && p.last() == v);
                    assert(reaches(links, forward, p[0], v));
                }
                if reachable_from(links, forward, start@).contains(v) {
                    let s0 = choose|s0: u128| start@.contains(s0) && reaches(links, forward, s0, v);
                    let p = choose|p: Seq<u128>| is_walk(links, forward, p) && p[0] == s0 && p.last() == v;
                    let j = choose|j: int| 0 <= j < start@.len() && start@[j] == s0;
                    assert(visited@.contains(start@[j]));
                    lemma_closed_walk(links, forward, c, p);
                }
            }
            assert(c =~= reachable_from(links, forward, start@));
        }
        visited
    }
}


impl Tree {
    /// `b` can be reached from `a` by following child → parent links.
    pub open spec fn reaches(&self, a: u128, b: u128) -> bool {
        reaches(self.links(), true, a, b)
    }

    /// The transitive parents of `u`.
    pub open spec fn ancestors(&self, u: u128) -> Set<u128> {
        Set::new(|v: u128| exists|p: u128| self.links().contains_key((u, p)) && reaches(self.links(), true, p, v))
    }

    /// The transitive children of `u`.
    pub open spec fn descendants(&self, u: u128) -> Set<u128> {
        Set::new(|v: u128| exists|c: u128| self.links().contains_key((c, u)) && reaches(self.links(), false, c, v))
    }

    fn neighbours_closure(&self, uuid: u128, forward: bool) -> (r: Vec<u128>)
        requires
            self.wf(),
        ensures
            forall|i: int, j: int| 0 <= i < j < r@.len() ==> r@[i] < r@[j],
            forward ==> r@.to_set() == self.ancestors(uuid),
            !forward ==> r@.to_set() == self.descendants(uuid),
    {
        let ns = graph_neighbours(&self.graph, uuid, forward);
        proof {
            self.lemma_neighbours(uuid);
            assert forall|i: int| 0 <= i < ns@.len() implies self.nodes().contains(#[trigger] ns@[i]) by {
                assert(ns@.to_set().contains(ns@[i]));
                if forward {
                    self.lemma_step_nodes(true, uuid, ns@[i]);
                } else {
                    self.lemma_step_nodes(false, uuid, ns@[i]);
                }
            }
        }
        let c = self.closure(&ns, forward);
        let r = sort_ascending(c);
        proof {
            let links = self.links();
            if forward {
                assert forall|v: u128| #[trigger] reachable_from(links, true, ns@).contains(v) == self.ancestors(uuid).contains(v) by {
                    if reachable_from(links, true, ns@).contains(v) {
                        let s0 = choose|s0: u128| ns@.contains(s0) && reaches(links, true, s0, v);
                        assert(ns@.to_set().contains(s0));
                    }
                    if self.ancestors(uuid).contains(v) {
                        let p = choose|p: u128| links.contains_key((uuid, p)) && reaches(links, true, p, v);
                        assert(self.parents_of(uuid).contains(p));
                        assert(ns@.to_set().contains(p));
                    }
                }
                assert(reachable_from(links, true, ns@) =~= self.ancestors(uuid));
            } else {
                assert forall|v: u128| #[trigger] reachable_from(links, false, ns@).contains(v) == self.descendants(uuid).contains(v) by {
                    if reachable_from(links, false, ns@).contains(v) {
                        let s0 = choose|s0: u128| ns@.contains(s0) && reaches(links, false, s0, v);
                        assert(ns@.to_set().contains(s0));
                    }
                    if self.descendants(uuid).contains(v) {
                        let c0 = choose|c0: u128| links.contains_key((c0, uuid)) && reaches(links, false, c0, v);
                        assert(self.children_of(uuid).contains(c0));
                        assert(ns@.to_set().contains(c0));
                    }
                }
                assert(reachable_from(links, false, ns@) =~= self.descendants(uuid));
            }
        }
        r
    }

    /// All transitive parents of a requirement, each once, in ascending
    /// UUID order.
    pub fn ancestors_of(&self, uuid: u128) -> (r: Vec<u128>)
        requires
            self.wf(),
        ensures
            forall|i: int, j: int| 0 <= i < j < r@.len() ==> r@[i] < r@[j],
            r@.to_set() == self.ancestors(uuid),
    {
        if !graph_contains_node(&self.graph, uuid) {
            proof {
                assert forall|v: u128| !self.ancestors(uuid).contains(v) by {
                    if self.ancestors(uuid).contains(v) {
                        let p = choose|p: u128| self.links().contains_key((uuid, p)) && reaches(self.links(), true, p, v);
                        self.lemma_step_nodes(true, uuid, p);
                    }
                }
                assert(Seq::<u128>::empty().to_set() =~= self.ancestors(uuid));
            }
            return Vec::new();
        }
        self.neighbours_closure(uuid, true)
    }

    /// All transitive children of a requirement, each once, in ascending
    /// UUID order.
    pub fn descendants_of(&self, uuid: u128) -> (r: Vec<u128>)
        requires
            self.wf(),
        ensures
            forall|i: int, j: int| 0 <= i < j < r@.len() ==> r@[i] < r@[j],
            r@.to_set() == self.descendants(uuid),
    {
        if !graph_contains_node(&self.graph, uuid) {
            proof {
                assert forall|v: u128| !self.descendants(uuid).contains(v) by {
                    if self.descendants(uuid).contains(v) {
                        let c = choose|c: u128| self.links().contains_key((c, uuid)) && reaches(self.links(), false, c, v);
                        self.lemma_step_nodes(false, uuid, c);
                    }
                }
                assert(Seq::<u128>::empty().to_set() =~= self.descendants(uuid));
            }
            return Vec::new();
        }
        self.neighbours_closure(uuid, false)
    }

    /// Whether `target` can be reached from `source` along child → parent
    /// links (a node reaches itself).
    pub fn can_reach(&self, source: u128, target: u128) -> (r: bool)
        requires
            self.wf(),
        ensures
            r == (self.nodes().contains(source) && self.reaches(source, target)),
    {
        if !graph_contains_node(&self.graph, source) {
            return false;
        }
        let mut start: Vec<u128> = Vec::new();
        start.push(source);
        proof {
            assert(start@.no_duplicates());
        }
        let c = self.closure(&start, true);
        let r = vec_contains(&c, target);
        proof {
            let links = self.links();
            assert(start@.contains(source)) by {
                assert(start@[0] == source);
            }
            if r {
                assert(c@.to_set().contains(target));
                let s0 = choose|s0: u128| start@.contains(s0) && reaches(links, true, s0, target);
                assert(s0 == source);
            } else {
                if reaches(links, true, source, target) {
                    assert(reachable_from(links, true, start@).contains(target));
                    assert(c@.to_set().contains(target));
                }
            }
        }
        r
    }
}


// ---------------------------------------------------------------------------
// Cycle paths and cycle prevention
// ---------------------------------------------------------------------------

fn copy_u128s(v: &Vec<u128>) -> (r: Vec<u128>)
    ensures
        r@ == v@,
{
    let mut r: Vec<u128> = Vec::new();
    let mut i: usize = 0;
    while i < v.len()
        invariant
            i <= v@.len(),
            r@ == v@.take(i as int),
        decreases v@.len() - i,
    {
        r.push(v[i]);
        i = i + 1;
        assert(r@ =~= v@.take(i as int));
    }
    assert(v@.take(v@.len() as int) =~= v@);
    r
}

/// The labels of the requirements along a walk, in order, each its HRID
/// with three digits; nodes that are not requirements are skipped.
pub open spec fn walk_labels(reqs: Map<u128, ReqSpec>, p: Seq<u128>) -> Seq<Seq<char>>
    decreases p.len(),
{
    if p.len() == 0 {
        Seq::empty()
    } else if reqs.contains_key(p.last()) {
        walk_labels(reqs, p.drop_last()).push(spec_display(reqs[p.last()].hrid, 3))
    } else {
        walk_labels(reqs, p.drop_last())
    }
}

/// The label of a requirement in a cycle message: its HRID with three
/// digits, or its UUID when it is not a requirement.
pub open spec fn node_label(reqs: Map<u128, ReqSpec>, u: u128) -> Seq<char> {
    if reqs.contains_key(u) {
        spec_display(reqs[u].hrid, 3)
    } else {
        "(UUID: "@ + uuid_text(u) + ")"@
    }
}

/// The message refusing a link that would close the walk `p` into a cycle.
pub open spec fn cycle_message(reqs: Map<u128, ReqSpec>, p: Seq<u128>, child: u128) -> Seq<char> {
    "Cannot create link: would form a cycle: "@ + join(walk_labels(reqs, p), " → "@) + " → "@
        + node_label(reqs, child)
}

impl Tree {
    /// A walk from `source` to `target` found by breadth-first search, or an
    /// empty vector when there is none.
    fn find_cycle_path(&self, source: u128, target: u128) -> (r: Vec<u128>)
        requires
            self.wf(),
        ensures
            r@.len() == 0 <==> !self.reaches(source, target),
            r@.len() > 0 ==> is_walk(self.links(), true, r@) && r@[0] == source && r@.last() == target,
    {
        let ghost links = self.links();
        let ghost bound = self.nodes().insert(source);
        let mut visited: Vec<u128> = Vec::new();
        let mut walks: Vec<Vec<u128>> = Vec::new();
        visited.push(source);
        let mut first: Vec<u128> = Vec::new();
        first.push(source);
        walks.push(first);
        proof {
            assert(visited@.no_duplicates());
            assert(walks@[0]@ =~= seq![source]);
        }
        let mut head: usize = 0;
        while head < visited.len()
            invariant
                self.wf(),
                links == self.links(),
                bound == self.nodes().insert(source),
                bound.finite(),
                head <= visited@.len(),
                visited@.no_duplicates(),
                visited@.len() >= 1,
                visited@[0] == source,
                forall|j: int| 0 <= j < visited@.len() ==> bound.contains(#[trigger] visited@[j]),
                walks@.len() == visited@.len(),
                forall|j: int|
                    0 <= j < visited@.len() ==> is_walk(links, true, (#[trigger] walks@[j])@)
                        && walks@[j]@[0] == source && walks@[j]@.last() == visited@[j],
                forall|j: int, w: u128|
                    0 <= j < head && #[trigger] step(links, true, visited@[j], w) ==> visited@.contains(w),
                forall|j: int| 0 <= j < head ==> visited@[j] != target,
            decreases bound.len() - visited@.len(), visited@.len() - head,
        {
            let node = visited[head];
            if node == target {
                return copy_u128s(&walks[head]);
            }
            let ns = graph_neighbours(&self.graph, node, true);
            proof {
                self.lemma_neighbours(node);
            }
            let ghost len_before = visited@.len();
            let mut t: usize = 0;
            while t < ns.len()
                invariant
                    self.wf(),
                    links == self.links(),
                    bound == self.nodes().insert(source),
                    node == visited@[head as int],
                    node != target,
                    head < visited@.len(),
                    len_before <= visited@.len(),
                    ns@.to_set() == neighbour_set(graph_edges(self.graph), node, true),
                    t <= ns@.len(),
                    visited@.no_duplicates(),
                    visited@[0] == source,
                    forall|j: int| 0 <= j < visited@.len() ==> bound.contains(#[trigger] visited@[j]),
                    walks@.len() == visited@.len(),
                    forall|j: int|
                        0 <= j < visited@.len() ==> is_walk(links, true, (#[trigger] walks@[j])@)
                            && walks@[j]@[0] == source && walks@[j]@.last() == visited@[j],
                    forall|j: int, w: u128|
                        0 <= j < head && #[trigger] step(links, true, visited@[j], w) ==> visited@.contains(w),
                    forall|j: int| 0 <= j < head ==> visited@[j] != target,
                    forall|i: int| 0 <= i < t ==> visited@.contains(#[trigger] ns@[i]),
                decreases ns@.len() - t,
            {
                let w = ns[t];
                proof {
                    assert(ns@.to_set().contains(w));
                    assert(step(links, true, node, w));
                    self.lemma_step_nodes(true, node, w);
                }
                if !vec_contains(&visited, w) {
                    let ghost prev = visited@;
                    let mut pw = copy_u128s(&walks[head]);
                    let ghost pw0 = pw@;
                    pw.push(w);
                    proof {
                        lemma_walk_extend(links, true, pw0, w);
                    }
                    visited.push(w);
                    walks.push(pw);
                    proof {
                        assert forall|j: int, x: u128|
                            0 <= j < head && #[trigger] step(links, true, visited@[j], x) implies visited@.contains(x) by {
                            assert(visited@[j] == prev[j]);
                            let q = choose|q: int| 0 <= q < prev.len() && prev[q] == x;
                            assert(visited@[q] == x);
                        }
                        assert forall|i: int| 0 <= i < t + 1 implies visited@.contains(#[trigger] ns@[i]) by {
                            if i < t {
                                let q = choose|q: int| 0 <= q < prev.len() && prev[q] == ns@[i];
                                assert(visited@[q] == ns@[i]);
                            } else {
                                assert(visited@[prev.len() as int] == w);
                            }
                        }
                    }
                }
                t = t + 1;
            }
            proof {
                assert forall|j: int, x: u128|
                    0 <= j < head + 1 && #[trigger] step(links, true, visited@[j], x) implies visited@.contains(x) by {
                    if j == head {
                        assert(neighbour_set(graph_edges(self.graph), node, true).contains(x));
                        assert(ns@.to_set().contains(x));
                        let i = choose|i: int| 0 <= i < ns@.len() && ns@[i] == x;
                        assert(visited@.contains(ns@[i]));
                    }
                }
                lemma_unique_len_bound(visited@, bound);
            }
            head = head + 1;
        }
        proof {
            let c = visited@.to_set();
            assert forall|v: u128, w: u128| c.contains(v) && #[trigger] step(links, true, v, w) implies c.contains(w) by {
                let j = choose|j: int| 0 <= j < visited@.len() && visited@[j] == v;
                assert(visited@.contains(w));
            }
            if self.reaches(source, target) {
                let p = choose|p: Seq<u128>| is_walk(links, true, p) && p[0] == source && p.last() == target;
                assert(c.contains(visited@[0]));
                lemma_closed_walk(links, true, c, p);
                let j = choose|j: int| 0 <= j < visited@.len() && visited@[j] == target;
                assert(visited@[j] != target);
            }
        }
        Vec::new()
    }

    fn label_of(&self, u: u128) -> (r: Vec<char>)
        requires
            self.wf(),
        ensures
            r@ == node_label(self.reqs(), u),
    {
        match self.hrid(u) {
            Some(h) => {
                let t = h.to_string_with_digits(3);
                crate::text::chars_of(t.as_str())
            },
            None => {
                let mut t = string_of("(UUID: ");
                let ut = uuid_to_string(u);
                push_str(&mut t, ut.as_str());
                push_str(&mut t, ")");
                crate::text::chars_of(t.as_str())
            },
        }
    }

    fn walk_label_list(&self, p: &Vec<u128>) -> (r: Vec<Vec<char>>)
        requires
            self.wf(),
        ensures
            r@.map_values(|l: Vec<char>| l@) == walk_labels(self.reqs(), p@),
    {
        let mut r: Vec<Vec<char>> = Vec::new();
        let mut i: usize = 0;
        while i < p.len()
            invariant
                self.wf(),
                i <= p@.len(),
                r@.map_values(|l: Vec<char>| l@) == walk_labels(self.reqs(), p@.take(i as int)),
            decreases p@.len() - i,
        {
            let u = p[i];
            proof {
                assert(p@.take(i + 1).drop_last() =~= p@.take(i as int));
                assert(p@.take(i + 1).last() == u);
            }
            let ghost before = r@.map_values(|l: Vec<char>| l@);
            match self.hrid(u) {
                Some(h) => {
                    let t = h.to_string_with_digits(3);
                    r.push(crate::text::chars_of(t.as_str()));
                    assert(r@.map_values(|l: Vec<char>| l@) =~= before.push(spec_display(self.reqs()[u].hrid, 3)));
                },
                None => {},
            }
            i = i + 1;
        }
        assert(p@.take(p@.len() as int) =~= p@);
        r
    }

    /// Refuses a child → parent link that would close a cycle, that is when
    /// the child can already be reached from the parent; the message names
    /// one such walk.
    pub fn check_would_create_cycle(&self, child_uuid: u128, parent_uuid: u128) -> (r: Result<(), String>)
        requires
            self.wf(),
        ensures
            r is Err == (self.nodes().contains(parent_uuid) && self.reaches(parent_uuid, child_uuid)),
            r matches Err(msg) ==> exists|p: Seq<u128>|
                is_walk(self.links(), true, p) && p[0] == parent_uuid && p.last() == child_uuid
                    && msg@ == #[trigger] cycle_message(self.reqs(), p, child_uuid),
    {
        if !self.can_reach(parent_uuid, child_uuid) {
            return Ok(());
        }
        let path = self.find_cycle_path(parent_uuid, child_uuid);
        let labels = self.walk_label_list(&path);
        let arrow: Vec<char> = crate::text::chars_of(" → ");
        let joined = crate::text::join_range(&labels, 0, labels.len(), arrow.as_slice());
        let mut msg = string_of("Cannot create link: would form a cycle: ");
        crate::text::push_chars(&mut msg, joined.as_slice());
        push_str(&mut msg, " → ");
        let child = self.label_of(child_uuid);
        crate::text::push_chars(&mut msg, child.as_slice());
        proof {
            assert(labels@.subrange(0, labels@.len() as int) =~= labels@);
            assert(msg@ == cycle_message(self.reqs(), path@, child_uuid));
        }
        Err(msg)
    }
}

/// `m` gives, for each UUID among the entries, a position holding it.
spec fn indexes(m: Map<u128, usize>, es: Seq<Entry>) -> bool {
    &&& forall|u: u128| #[trigger] m.contains_key(u) ==> m[u] < es.len() && es[m[u] as int].uuid == u
    &&& forall|i: int| 0 <= i < es.len() ==> m.contains_key(#[trigger] es[i].uuid)
}

fn build_index(es: &Vec<Entry>) -> (m: HashMap<u128, usize>)
    ensures
        indexes(m@, es@),
{
    let mut m: HashMap<u128, usize> = HashMap::new();
    let mut i: usize = 0;
    while i < es.len()
        invariant
            i <= es@.len(),
            forall|u: u128| #[trigger] m@.contains_key(u) ==> m@[u] < i && es@[m@[u] as int].uuid == u,
            forall|j: int| 0 <= j < i ==> m@.contains_key(#[trigger] es@[j].uuid),
        decreases es@.len() - i,
    {
        m.insert(es[i].uuid, i);
        i = i + 1;
    }
    m
}

spec fn reqs_of(es: Seq<Entry>) -> Map<u128, ReqSpec> {
    Map::new(
        |u: u128| seq_has(es.map_values(|e: Entry| e.uuid), u),
        |u: u128| entry_spec(es[choose|i: int| 0 <= i < es.len() && es[i].uuid == u]),
    )
}

spec fn distinct_uuids(es: Seq<Entry>) -> bool {
    forall|i: int, j: int| 0 <= i < es.len() && 0 <= j < es.len() && i != j ==> es[i].uuid != es[j].uuid
}

proof fn lemma_reqs_of_dom(es: Seq<Entry>, u: u128)
    ensures
        reqs_of(es).contains_key(u) == exists|i: int| 0 <= i < es.len() && es[i].uuid == u,
{
    let o = es.map_values(|e: Entry| e.uuid);
    if reqs_of(es).contains_key(u) {
        let i = choose|i: int| 0 <= i < o.len() && o[i] == u;
        assert(es[i].uuid == u);
    }
    if exists|i: int| 0 <= i < es.len() && es[i].uuid == u {
        let i = choose|i: int| 0 <= i < es.len() && es[i].uuid == u;
        assert(o[i] == u);
    }
}

proof fn lemma_reqs_of_at(es: Seq<Entry>, i: int)
    requires
        distinct_uuids(es),
        0 <= i < es.len(),
    ensures
        reqs_of(es).contains_key(es[i].uuid),
        reqs_of(es)[es[i].uuid] == entry_spec(es[i]),
{
    lemma_reqs_of_dom(es, es[i].uuid);
    let j = choose|j: int| 0 <= j < es.len() && es[j].uuid == es[i].uuid;
    assert(j == i);
}

proof fn lemma_reqs_of_update(es: Seq<Entry>, i: int, e: Entry)
    requires
        distinct_uuids(es),
        0 <= i < es.len(),
        e.uuid == es[i].uuid,
    ensures
        distinct_uuids(es.update(i, e)),
        reqs_of(es.update(i, e)) == reqs_of(es).insert(e.uuid, entry_spec(e)),
{
    let t = es.update(i, e);
    assert forall|a: int, b: int| 0 <= a < t.len() && 0 <= b < t.len() && a != b implies t[a].uuid
        != t[b].uuid by {
        assert(t[a].uuid == es[a].uuid);
        assert(t[b].uuid == es[b].uuid);
    }
    assert forall|u: u128| #[trigger] reqs_of(t).contains_key(u) == reqs_of(es).contains_key(u) by {
        lemma_reqs_of_dom(t, u);
        lemma_reqs_of_dom(es, u);
        if exists|j: int| 0 <= j < t.len() && t[j].uuid == u {
            let j = choose|j: int| 0 <= j < t.len() && t[j].uuid == u;
            assert(es[j].uuid == u);
        }
        if exists|j: int| 0 <= j < es.len() && es[j].uuid == u {
            let j = choose|j: int| 0 <= j < es.len() && es[j].uuid == u;
            assert(t[j].uuid == u);
        }
    }
    assert forall|u: u128| #[trigger] reqs_of(t).contains_key(u) implies reqs_of(t)[u] == reqs_of(
        es,
    ).insert(e.uuid, entry_spec(e))[u] by {
        lemma_reqs_of_dom(t, u);
        let j = choose|j: int| 0 <= j < t.len() && t[j].uuid == u;
        lemma_reqs_of_at(t, j);
        if j != i {
            lemma_reqs_of_at(es, j);
        }
    }
    lemma_reqs_of_at(t, i);
    assert(reqs_of(t) =~= reqs_of(es).insert(e.uuid, entry_spec(e)));
}

proof fn lemma_reqs_of_remove(es: Seq<Entry>, i: int)
    requires
        distinct_uuids(es),
        0 <= i < es.len(),
    ensures
        distinct_uuids(es.remove(i)),
        reqs_of(es.remove(i)) == reqs_of(es).remove(es[i].uuid),
        forall|j: int| 0 <= j < es.remove(i).len() ==> (#[trigger] es.remove(i)[j]) == es[if j < i {
            j
        } else {
            j + 1
        }],
{
    let t = es.remove(i);
    let u0 = es[i].uuid;
    assert forall|j: int| 0 <= j < t.len() implies (#[trigger] t[j]) == es[if j < i {
        j
    } else {
        j + 1
    }] by {}
    assert forall|a: int, b: int| 0 <= a < t.len() && 0 <= b < t.len() && a != b implies t[a].uuid
        != t[b].uuid by {
        let a2 = if a < i {
            a
        } else {
            a + 1
        };
        let b2 = if b < i {
            b
        } else {
            b + 1
        };
        assert(t[a] == es[a2]);
        assert(t[b] == es[b2]);
    }
    assert forall|u: u128| #[trigger] reqs_of(t).contains_key(u) == (reqs_of(es).contains_key(u)
        && u != u0) by {
        lemma_reqs_of_dom(t, u);
        lemma_reqs_of_dom(es, u);
        if exists|j: int| 0 <= j < t.len() && t[j].uuid == u {
            let j = choose|j: int| 0 <= j < t.len() && t[j].uuid == u;
            let j2 = if j < i {
                j
            } else {
                j + 1
            };
            assert(es[j2].uuid == u);
            assert(j2 != i);
        }
        if exists|j: int| 0 <= j < es.len() && es[j].uuid == u && u != u0 {
            let j = choose|j: int| 0 <= j < es.len() && es[j].uuid == u;
            assert(j != i);
            let j2 = if j < i {
                j
            } else {
                j - 1
            };
            assert(t[j2].uuid == u);
        }
    }
    assert forall|u: u128| #[trigger] reqs_of(t).contains_key(u) implies reqs_of(t)[u] == reqs_of(
        es,
    )[u] by {
        lemma_reqs_of_dom(t, u);
        let j = choose|j: int| 0 <= j < t.len() && t[j].uuid == u;
        let j2 = if j < i {
            j
        } else {
            j + 1
        };
        lemma_reqs_of_at(t, j);
        lemma_reqs_of_at(es, j2);
    }
    assert(reqs_of(t) =~= reqs_of(es).remove(u0));
}

/// The links after adding, in order, one link from `child` per parent
/// reference (a later reference to the same parent replaces an earlier one).
pub open spec fn with_parent_links(
    links: Map<(u128, u128), ParentView>,
    child: u128,
    parents: Seq<(u128, ParentView)>,
) -> Map<(u128, u128), ParentView>
    decreases parents.len(),
{
    if parents.len() == 0 {
        links
    } else {
        with_parent_links(links, child, parents.drop_last()).insert(
            (child, parents.last().0),
            parents.last().1,
        )
    }
}


// ---------------------------------------------------------------------------
// Links: creating, removing and renaming
// ---------------------------------------------------------------------------

/// The fingerprint of a requirement's content.
pub open spec fn content_fingerprint(r: ReqSpec) -> Seq<char> {
    spec_fingerprint(r.title, r.body, r.tags)
}

impl RequirementView {
    /// The fingerprint of this requirement's title, body and tags.
    pub fn fingerprint(&self) -> (r: String)
        ensures
            r@ == spec_fingerprint(self.title@, self.body@, tags_view(self.tags@)),
    {
        fingerprint(self.title.as_str(), self.body.as_str(), self.tags.as_slice())
    }
}

/// Errors from [`Tree::upsert_parent_link`].
#[derive(Debug, PartialEq, Eq)]
pub enum LinkError {
    /// The child UUID is not a requirement of the tree.
    ChildNotFound(u128),
    /// The parent UUID is not a requirement of the tree.
    ParentNotFound(u128),
}

/// Errors from [`Tree::link_requirement`].
#[derive(Debug)]
pub enum LinkRequirementError {
    /// No requirement has the child HRID.
    ChildNotFound(Hrid),
    /// No requirement has the parent HRID.
    ParentNotFound(Hrid),
    /// The link would close a cycle; the message names it.
    WouldCreateCycle(String),
}

/// The result of linking two requirements.
#[derive(Debug)]
pub struct LinkOutcome {
    pub child_uuid: u128,
    pub child_hrid: Hrid,
    pub parent_uuid: u128,
    pub parent_hrid: Hrid,
    /// Whether the link existed before.
    pub already_linked: bool,
}

/// No link closes a cycle: the child of a link is never reachable from its
/// parent.
pub open spec fn acyclic(links: Map<(u128, u128), ParentView>) -> bool {
    forall|k: (u128, u128)| #[trigger] links.contains_key(k) ==> !reaches(links, true, k.1, k.0)
}

proof fn lemma_reaches_refl(links: Map<(u128, u128), ParentView>, forward: bool, a: u128)
    ensures
        reaches(links, forward, a, a),
{
    let p = seq![a];
    assert(is_walk(links, forward, p) && p[0] == a && p.last() == a);
}

proof fn lemma_reaches_step(links: Map<(u128, u128), ParentView>, forward: bool, a: u128, b: u128, c: u128)
    requires
        reaches(links, forward, a, b),
        step(links, forward, b, c),
    ensures
        reaches(links, forward, a, c),
{
    let p = choose|p: Seq<u128>| is_walk(links, forward, p) && p[0] == a && p.last() == b;
    lemma_walk_extend(links, forward, p, c);
    assert(is_walk(links, forward, p.push(c)) && p.push(c)[0] == a && p.push(c).last() == c);
}

proof fn lemma_walk_prefix(links: Map<(u128, u128), ParentView>, forward: bool, w: Seq<u128>)
    requires
        is_walk(links, forward, w),
        w.len() > 1,
    ensures
        is_walk(links, forward, w.drop_last()),
        w.drop_last()[0] == w[0],
        step(links, forward, w.drop_last().last(), w.last()),
{
    let q = w.drop_last();
    assert forall|i: int| 0 <= i < q.len() - 1 implies #[trigger] step(links, forward, q[i], q[i + 1]) by {
        assert(step(links, forward, w[i], w[i + 1]));
    }
    let i = w.len() - 2;
    assert(step(links, forward, w[i], w[i + 1]));
    assert(q.last() == w[i]);
}

proof fn lemma_reaches_along(links: Map<(u128, u128), ParentView>, forward: bool, a: u128, w: Seq<u128>)
    requires
        is_walk(links, forward, w),
        reaches(links, forward, a, w[0]),
    ensures
        reaches(links, forward, a, w.last()),
    decreases w.len(),
{
    if w.len() > 1 {
        lemma_walk_prefix(links, forward, w);
        lemma_reaches_along(links, forward, a, w.drop_last());
        lemma_reaches_step(links, forward, a, w.drop_last().last(), w.last());
    }
}

/// Reachability is transitive.
pub proof fn lemma_reaches_trans(
    links: Map<(u128, u128), ParentView>,
    forward: bool,
    a: u128,
    b: u128,
    c: u128,
)
    requires
        reaches(links, forward, a, b),
        reaches(links, forward, b, c),
    ensures
        reaches(links, forward, a, c),
{
    let w = choose|w: Seq<u128>| is_walk(links, forward, w) && w[0] == b && w.last() == c;
    lemma_reaches_along(links, forward, a, w);
}

proof fn lemma_walk_after_insert(
    links: Map<(u128, u128), ParentView>,
    c: u128,
    p: u128,
    v: ParentView,
    w: Seq<u128>,
)
    requires
        is_walk(links.insert((c, p), v), true, w),
    ensures
        reaches(links, true, w[0], w.last()) || (reaches(links, true, w[0], c) && reaches(
            links,
            true,
            p,
            w.last(),
        )),
    decreases w.len(),
{
    let nl = links.insert((c, p), v);
    if w.len() == 1 {
        lemma_reaches_refl(links, true, w[0]);
    } else {
        lemma_walk_prefix(nl, true, w);
        let q = w.drop_last();
        lemma_walk_after_insert(links, c, p, v, q);
        let y0 = q.last();
        let y = w.last();
        if links.contains_key((y0, y)) {
            assert(step(links, true, y0, y));
            if reaches(links, true, w[0], y0) {
                lemma_reaches_step(links, true, w[0], y0, y);
            } else {
                lemma_reaches_step(links, true, p, y0, y);
            }
        } else {
            assert(y0 == c && y == p);
            lemma_reaches_refl(links, true, p);
        }
    }
}

/// Adding a link from `c` to `p` keeps a graph acyclic when `c` cannot be
/// reached from `p`.
pub proof fn lemma_link_keeps_acyclic(links: Map<(u128, u128), ParentView>, c: u128, p: u128, v: ParentView)
    requires
        acyclic(links),
        !reaches(links, true, p, c),
    ensures
        acyclic(links.insert((c, p), v)),
{
    let nl = links.insert((c, p), v);
    assert forall|k: (u128, u128)| #[trigger] nl.contains_key(k) implies !reaches(nl, true, k.1, k.0) by {
        if reaches(nl, true, k.1, k.0) {
            let w = choose|w: Seq<u128>| is_walk(nl, true, w) && w[0] == k.1 && w.last() == k.0;
            lemma_walk_after_insert(links, c, p, v, w);
            if k != (c, p) {
                assert(links.contains_key(k));
                if reaches(links, true, k.1, c) && reaches(links, true, p, k.0) {
                    assert(step(links, true, k.0, k.1));
                    lemma_reaches_step(links, true, p, k.0, k.1);
                    lemma_reaches_trans(links, true, p, k.1, c);
                }
            }
        }
    }
}

impl Tree {
    /// Two requirements with the same HRID are the same requirement.
    pub proof fn lemma_hrid_unique(&self, u: u128, v: u128)
        requires
            self.wf(),
            self.reqs().contains_key(u),
            self.reqs().contains_key(v),
            self.reqs()[u].hrid == self.reqs()[v].hrid,
        ensures
            u == v,
    {
        self.lemma_reqs_dom(u);
        self.lemma_reqs_dom(v);
        let i = choose|i: int| 0 <= i < self.entries@.len() && self.entries@[i].uuid == u;
        let j = choose|j: int| 0 <= j < self.entries@.len() && self.entries@[j].uuid == v;
        self.lemma_reqs_at(i);
        self.lemma_reqs_at(j);
    }

    /// Adds or replaces the link from `child_uuid` to `parent_uuid`,
    /// recording the parent's HRID and `fingerprint`; `true` when a link was
    /// replaced.
    pub fn upsert_parent_link(&mut self, child_uuid: u128, parent_uuid: u128, fingerprint: String) -> (r: Result<bool, LinkError>)
        requires
            old(self).wf(),
        ensures
            final(self).wf(),
            match r {
                Err(LinkError::ChildNotFound(u)) => {
                    &&& u == child_uuid
                    &&& !old(self).reqs().contains_key(child_uuid)
                    &&& *final(self) == *old(self)
                },
                Err(LinkError::ParentNotFound(u)) => {
                    &&& u == parent_uuid
                    &&& old(self).reqs().contains_key(child_uuid)
                    &&& !old(self).reqs().contains_key(parent_uuid)
                    &&& *final(self) == *old(self)
                },
                Ok(replaced) => {
                    &&& old(self).reqs().contains_key(child_uuid)
                    &&& old(self).reqs().contains_key(parent_uuid)
                    &&& replaced == old(self).links().contains_key((child_uuid, parent_uuid))
                    &&& final(self).reqs() == old(self).reqs()
                    &&& final(self).order() == old(self).order()
                    &&& final(self).nodes() == old(self).nodes()
                    &&& final(self).links() == old(self).links().insert(
                        (child_uuid, parent_uuid),
                        ParentView { hrid: old(self).reqs()[parent_uuid].hrid, fingerprint: fingerprint@ },
                    )
                },
            },
    {
        let ci = match self.index_of_uuid(child_uuid) {
            Some(i) => i,
            None => {
                return Err(LinkError::ChildNotFound(child_uuid));
            },
        };
        proof {
            self.lemma_reqs_at(ci as int);
        }
        let pi = match self.index_of_uuid(parent_uuid) {
            Some(i) => i,
            None => {
                return Err(LinkError::ParentNotFound(parent_uuid));
            },
        };
        let ghost old_self = *self;
        proof {
            self.lemma_reqs_at(pi as int);
        }
        graph_add_node(&mut self.graph, child_uuid);
        graph_add_node(&mut self.graph, parent_uuid);
        let edge = EdgeData { parent_hrid: self.entries[pi].hrid.clone(), fingerprint };
        let prev = graph_add_edge(&mut self.graph, child_uuid, parent_uuid, edge);
        proof {
            assert(graph_nodes(self.graph) =~= graph_nodes(old_self.graph));
            assert(self.order() == old_self.order());
            assert(self.order()[ci as int] == child_uuid);
            assert forall|k: (u128, u128)| #[trigger]
                graph_edges(self.graph).contains_key(k) implies graph_nodes(self.graph).contains(k.0)
                && graph_nodes(self.graph).contains(k.1) && seq_has(self.order(), k.0) by {
                if k != (child_uuid, parent_uuid) {
                    assert(graph_edges(old_self.graph).contains_key(k));
                }
            }
            assert(self.wf());
            assert(self.links() =~= old_self.links().insert(
                (child_uuid, parent_uuid),
                ParentView { hrid: old_self.reqs()[parent_uuid].hrid, fingerprint: fingerprint@ },
            ));
        }
        Ok(prev.is_some())
    }
}


impl Tree {
    /// The requirements are finitely many.
    pub proof fn lemma_reqs_finite(&self)
        requires
            self.wf(),
        ensures
            self.reqs().dom().finite(),
    {
        assert forall|u: u128| self.reqs().dom().contains(u) implies self.order().to_set().contains(u) by {
            self.lemma_reqs_dom(u);
            let i = choose|i: int| 0 <= i < self.entries@.len() && self.entries@[i].uuid == u;
            assert(self.order()[i] == u);
        }
        vstd::set_lib::lemma_set_subset_finite(self.order().to_set(), self.reqs().dom());
    }

    /// Every requirement is a node of the graph.
    pub proof fn lemma_req_is_node(&self, u: u128)
        requires
            self.wf(),
            self.reqs().contains_key(u),
        ensures
            self.nodes().contains(u),
    {
        self.lemma_reqs_dom(u);
        let i = choose|i: int| 0 <= i < self.entries@.len() && self.entries@[i].uuid == u;
        assert(graph_nodes(self.graph).contains(self.entries@[i].uuid));
    }

    /// Links the requirement with HRID `child` to the one with HRID `parent`,
    /// recording the parent's HRID and current fingerprint on the link.
    /// Refused when either HRID is unknown or when the child can already be
    /// reached from the parent.
    pub fn link_requirement(&mut self, child: &Hrid, parent: &Hrid) -> (r: Result<LinkOutcome, LinkRequirementError>)
        requires
            old(self).wf(),
        ensures
            final(self).wf(),
            match r {
                Err(LinkRequirementError::ChildNotFound(h)) => {
                    &&& h@ == child@
                    &&& !old(self).has_hrid(child@)
                    &&& *final(self) == *old(self)
                },
                Err(LinkRequirementError::ParentNotFound(h)) => {
                    &&& h@ == parent@
                    &&& old(self).has_hrid(child@)
                    &&& !old(self).has_hrid(parent@)
                    &&& *final(self) == *old(self)
                },
                Err(LinkRequirementError::WouldCreateCycle(msg)) => {
                    &&& old(self).has_hrid(child@)
                    &&& old(self).has_hrid(parent@)
                    &&& *final(self) == *old(self)
                    &&& forall|c: u128, p: u128|
                        #![trigger old(self).reqs()[c], old(self).reqs()[p]]
                        old(self).reqs().contains_key(c) && old(self).reqs()[c].hrid == child@
                            && old(self).reqs().contains_key(p) && old(self).reqs()[p].hrid == parent@
                            ==> exists|w: Seq<u128>|
                            is_walk(old(self).links(), true, w) && w[0] == p && w.last() == c
                                && msg@ == #[trigger] cycle_message(old(self).reqs(), w, c)
                },
                Ok(o) => {
                    &&& old(self).reqs().contains_key(o.child_uuid)
                    &&& old(self).reqs()[o.child_uuid].hrid == child@
                    &&& old(self).reqs().contains_key(o.parent_uuid)
                    &&& old(self).reqs()[o.parent_uuid].hrid == parent@
                    &&& o.child_hrid@ == child@
                    &&& o.parent_hrid@ == parent@
                    &&& !old(self).reaches(o.parent_uuid, o.child_uuid)
                    &&& o.already_linked == old(self).links().contains_key((o.child_uuid, o.parent_uuid))
                    &&& final(self).reqs() == old(self).reqs()
                    &&& final(self).nodes() == old(self).nodes()
                    &&& final(self).links() == old(self).links().insert(
                        (o.child_uuid, o.parent_uuid),
                        ParentView {
                            hrid: parent@,
                            fingerprint: content_fingerprint(old(self).reqs()[o.parent_uuid]),
                        },
                    )
                },
            },
            r is Ok && acyclic(old(self).links()) ==> acyclic(final(self).links()),
    {
        let cv = match self.find_by_hrid(child) {
            Some(v) => v,
            None => {
                return Err(LinkRequirementError::ChildNotFound(child.clone()));
            },
        };
        let pv = match self.find_by_hrid(parent) {
            Some(v) => v,
            None => {
                return Err(LinkRequirementError::ParentNotFound(parent.clone()));
            },
        };
        let child_uuid = cv.uuid;
        let parent_uuid = pv.uuid;
        let fp = pv.fingerprint();
        let ghost old_self = *self;
        match self.check_would_create_cycle(child_uuid, parent_uuid) {
            Err(msg) => {
                proof {
                    assert forall|c: u128, p: u128|
                        #![trigger self.reqs()[c], self.reqs()[p]]
                        self.reqs().contains_key(c) && self.reqs()[c].hrid == child@
                            && self.reqs().contains_key(p) && self.reqs()[p].hrid == parent@
                            implies exists|w: Seq<u128>|
                            is_walk(self.links(), true, w) && w[0] == p && w.last() == c
                                && msg@ == #[trigger] cycle_message(self.reqs(), w, c) by {
                        self.lemma_hrid_unique(c, child_uuid);
                        self.lemma_hrid_unique(p, parent_uuid);
                    }
                }
                return Err(LinkRequirementError::WouldCreateCycle(msg));
            },
            Ok(()) => {},
        }
        proof {
            self.lemma_req_is_node(parent_uuid);
        }
        let already_linked = graph_contains_edge(&self.graph, child_uuid, parent_uuid);
        match self.upsert_parent_link(child_uuid, parent_uuid, fp) {
            Ok(_) => {},
            Err(LinkError::ChildNotFound(_)) => {
                return Err(LinkRequirementError::ChildNotFound(cv.hrid));
            },
            Err(LinkError::ParentNotFound(_)) => {
                return Err(LinkRequirementError::ParentNotFound(pv.hrid));
            },
        }
        proof {
            if acyclic(old_self.links()) {
                lemma_link_keeps_acyclic(
                    old_self.links(),
                    child_uuid,
                    parent_uuid,
                    ParentView { hrid: parent@, fingerprint: content_fingerprint(old_self.reqs()[parent_uuid]) },
                );
            }
        }
        Ok(LinkOutcome {
            child_uuid,
            child_hrid: cv.hrid,
            parent_uuid,
            parent_hrid: pv.hrid,
            already_linked,
        })
    }
}


/// Errors from [`Tree::unlink_requirement`].
#[derive(Debug)]
pub enum UnlinkError {
    /// No requirement has the child HRID.
    ChildNotFound(Hrid),
    /// No requirement has the parent HRID.
    ParentNotFound(Hrid),
    /// Both exist but the child does not link to the parent.
    NotLinked { child: Hrid, parent: Hrid },
}

/// The message of an unlink error.
pub open spec fn unlink_error_message(e: UnlinkError) -> Seq<char> {
    match e {
        UnlinkError::ChildNotFound(h) => "Child requirement "@ + spec_display(h@, 3) + " not found"@,
        UnlinkError::ParentNotFound(h) => "Parent requirement "@ + spec_display(h@, 3) + " not found"@,
        UnlinkError::NotLinked { child, parent } => "No link exists between "@ + spec_display(child@, 3)
            + " and "@ + spec_display(parent@, 3),
    }
}

impl UnlinkError {
    /// The error message.
    pub fn to_string(&self) -> (r: String)
        ensures
            r@ == unlink_error_message(*self),
    {
        match self {
            UnlinkError::ChildNotFound(h) => {
                let mut r = string_of("Child requirement ");
                push_str(&mut r, h.to_string_with_digits(3).as_str());
                push_str(&mut r, " not found");
                r
            },
            UnlinkError::ParentNotFound(h) => {
                let mut r = string_of("Parent requirement ");
                push_str(&mut r, h.to_string_with_digits(3).as_str());
                push_str(&mut r, " not found");
                r
            },
            UnlinkError::NotLinked { child, parent } => {
                let mut r = string_of("No link exists between ");
                push_str(&mut r, child.to_string_with_digits(3).as_str());
                push_str(&mut r, " and ");
                push_str(&mut r, parent.to_string_with_digits(3).as_str());
                r
            },
        }
    }
}

/// Errors from [`Tree::rename_requirement`].
#[derive(Debug)]
pub enum RenameError {
    /// No requirement has the old HRID.
    NotFound(Hrid),
    /// A requirement already has the new HRID.
    AlreadyExists(Hrid),
}

/// The message of a rename error.
pub open spec fn rename_error_message(e: RenameError) -> Seq<char> {
    match e {
        RenameError::NotFound(h) => "Requirement "@ + spec_display(h@, 3) + " not found"@,
        RenameError::AlreadyExists(h) => "Cannot rename to "@ + spec_display(h@, 3) + ": HRID already exists"@,
    }
}

impl RenameError {
    /// The error message.
    pub fn to_string(&self) -> (r: String)
        ensures
            r@ == rename_error_message(*self),
    {
        match self {
            RenameError::NotFound(h) => {
                let mut r = string_of("Requirement ");
                push_str(&mut r, h.to_string_with_digits(3).as_str());
                push_str(&mut r, " not found");
                r
            },
            RenameError::AlreadyExists(h) => {
                let mut r = string_of("Cannot rename to ");
                push_str(&mut r, h.to_string_with_digits(3).as_str());
                push_str(&mut r, ": HRID already exists");
                r
            },
        }
    }
}

/// The links after requirement `u` is renamed to `h`: every link to `u`
/// records `h`, keeping its fingerprint.
pub open spec fn renamed_links(links: Map<(u128, u128), ParentView>, u: u128, h: SpecHrid) -> Map<
    (u128, u128),
    ParentView,
> {
    Map::new(
        |k: (u128, u128)| links.contains_key(k),
        |k: (u128, u128)|
            if k.1 == u {
                ParentView { hrid: h, fingerprint: links[k].fingerprint }
            } else {
                links[k]
            },
    )
}

impl Tree {
    /// Removes the link from the requirement with HRID `child` to the one
    /// with HRID `parent`, handing back the child's UUID.
    pub fn unlink_requirement(&mut self, child: &Hrid, parent: &Hrid) -> (r: Result<u128, UnlinkError>)
        requires
            old(self).wf(),
        ensures
            final(self).wf(),
            match r {
                Err(UnlinkError::ChildNotFound(h)) => {
                    &&& h@ == child@
                    &&& !old(self).has_hrid(child@)
                    &&& *final(self) == *old(self)
                },
                Err(UnlinkError::ParentNotFound(h)) => {
                    &&& h@ == parent@
                    &&& old(self).has_hrid(child@)
                    &&& !old(self).has_hrid(parent@)
                    &&& *final(self) == *old(self)
                },
                Err(UnlinkError::NotLinked { child: c, parent: p }) => {
                    &&& c@ == child@
                    &&& p@ == parent@
                    &&& old(self).has_hrid(child@)
                    &&& old(self).has_hrid(parent@)
                    &&& *final(self) == *old(self)
                    &&& forall|cu: u128, pu: u128|
                        #![trigger old(self).reqs()[cu], old(self).reqs()[pu]]
                        old(self).reqs().contains_key(cu) && old(self).reqs()[cu].hrid == child@
                            && old(self).reqs().contains_key(pu) && old(self).reqs()[pu].hrid == parent@
                            ==> !old(self).links().contains_key((cu, pu))
                },
                Ok(u) => {
                    &&& old(self).reqs().contains_key(u)
                    &&& old(self).reqs()[u].hrid == child@
                    &&& old(self).has_hrid(parent@)
                    &&& final(self).reqs() == old(self).reqs()
                    &&& final(self).nodes() == old(self).nodes()
                    &&& forall|pu: u128|
                        old(self).reqs().contains_key(pu) && #[trigger] old(self).reqs()[pu].hrid == parent@
                            ==> old(self).links().contains_key((u, pu)) && final(self).links()
                            == old(self).links().remove((u, pu))
                },
            },
    {
        let child_uuid = match self.uuid_for_hrid(child) {
            Some(u) => u,
            None => {
                return Err(UnlinkError::ChildNotFound(child.clone()));
            },
        };
        let parent_uuid = match self.uuid_for_hrid(parent) {
            Some(u) => u,
            None => {
                return Err(UnlinkError::ParentNotFound(parent.clone()));
            },
        };
        if !graph_contains_edge(&self.graph, child_uuid, parent_uuid) {
            proof {
                assert forall|cu: u128, pu: u128|
                    #![trigger self.reqs()[cu], self.reqs()[pu]]
                    self.reqs().contains_key(cu) && self.reqs()[cu].hrid == child@
                        && self.reqs().contains_key(pu) && self.reqs()[pu].hrid == parent@
                        implies !self.links().contains_key((cu, pu)) by {
                    self.lemma_hrid_unique(cu, child_uuid);
                    self.lemma_hrid_unique(pu, parent_uuid);
                }
            }
            return Err(UnlinkError::NotLinked { child: child.clone(), parent: parent.clone() });
        }
        let ghost old_self = *self;
        graph_remove_edge(&mut self.graph, child_uuid, parent_uuid);
        proof {
            assert(self.wf());
            assert(self.links() =~= old_self.links().remove((child_uuid, parent_uuid)));
            assert forall|pu: u128|
                old_self.reqs().contains_key(pu) && #[trigger] old_self.reqs()[pu].hrid == parent@
                    implies old_self.links().contains_key((child_uuid, pu)) && self.links()
                    == old_self.links().remove((child_uuid, pu)) by {
                old_self.lemma_hrid_unique(pu, parent_uuid);
            }
        }
        Ok(child_uuid)
    }

    /// Renames a requirement, rewriting the parent HRID recorded on every
    /// link to it; hands back its UUID and its children.
    pub fn rename_requirement(&mut self, old_hrid: &Hrid, new_hrid: &Hrid) -> (r: Result<(u128, Vec<u128>), RenameError>)
        requires
            old(self).wf(),
        ensures
            final(self).wf(),
            match r {
                Err(RenameError::NotFound(h)) => {
                    &&& h@ == old_hrid@
                    &&& !old(self).has_hrid(old_hrid@)
                    &&& *final(self) == *old(self)
                },
                Err(RenameError::AlreadyExists(h)) => {
                    &&& h@ == new_hrid@
                    &&& old(self).has_hrid(old_hrid@)
                    &&& old(self).has_hrid(new_hrid@)
                    &&& *final(self) == *old(self)
                },
                Ok((u, children)) => {
                    let o = old(self).reqs()[u];
                    &&& old(self).reqs().contains_key(u)
                    &&& o.hrid == old_hrid@
                    &&& !old(self).has_hrid(new_hrid@)
                    &&& final(self).reqs() == old(self).reqs().insert(
                        u,
                        ReqSpec { hrid: new_hrid@, title: o.title, body: o.body, tags: o.tags, created: o.created },
                    )
                    &&& children@.no_duplicates()
                    &&& children@.to_set() == old(self).children_of(u)
                    &&& final(self).nodes() == old(self).nodes()
                    &&& final(self).links() == renamed_links(old(self).links(), u, new_hrid@)
                },
            },
    {
        let i = match self.index_of_hrid(old_hrid) {
            Some(i) => i,
            None => {
                proof {
                    if self.has_hrid(old_hrid@) {
                        let u = choose|u: u128| self.reqs().contains_key(u) && #[trigger] self.reqs()[u].hrid == old_hrid@;
                        self.lemma_reqs_dom(u);
                        let t = choose|t: int| 0 <= t < self.entries@.len() && self.entries@[t].uuid == u;
                        self.lemma_reqs_at(t);
                    }
                }
                return Err(RenameError::NotFound(old_hrid.clone()));
            },
        };
        proof {
            self.lemma_reqs_at(i as int);
            assert(self.reqs()[self.entries@[i as int].uuid].hrid == old_hrid@);
        }
        match self.index_of_hrid(new_hrid) {
            Some(j) => {
                proof {
                    self.lemma_reqs_at(j as int);
                    assert(self.reqs()[self.entries@[j as int].uuid].hrid == new_hrid@);
                }
                return Err(RenameError::AlreadyExists(new_hrid.clone()));
            },
            None => {},
        }
        let ghost old_self = *self;
        proof {
            if self.has_hrid(new_hrid@) {
                let u = choose|u: u128| self.reqs().contains_key(u) && #[trigger] self.reqs()[u].hrid == new_hrid@;
                self.lemma_reqs_dom(u);
                let t = choose|t: int| 0 <= t < self.entries@.len() && self.entries@[t].uuid == u;
                self.lemma_reqs_at(t);
            }
        }
        let uuid = self.entries[i].uuid;
        let children = self.children(uuid);
        let ghost old_edges = graph_edges(self.graph);
        let mut j: usize = 0;
        while j < children.len()
            invariant
                j <= children@.len(),
                children@.no_duplicates(),
                children@.to_set() == old_self.children_of(uuid),
                self.entries == old_self.entries,
                old_self.wf(),
                old_self.reqs().contains_key(uuid),
                self.index == old_self.index,
                old_edges == graph_edges(old_self.graph),
                graph_nodes(self.graph) == graph_nodes(old_self.graph),
                graph_edges(self.graph).dom() == old_edges.dom(),
                forall|k: (u128, u128)| #[trigger]
                    graph_edges(self.graph).contains_key(k) ==> link_view(graph_edges(self.graph)[k]) == if k.1
                        == uuid && children@.take(j as int).contains(k.0) {
                        ParentView { hrid: new_hrid@, fingerprint: link_view(old_edges[k]).fingerprint }
                    } else {
                        link_view(old_edges[k])
                    },
            decreases children@.len() - j,
        {
            let c = children[j];
            let ghost before = graph_edges(self.graph);
            proof {
                assert(children@.to_set().contains(c));
                assert(old_self.links().contains_key((c, uuid)));
                assert(before.contains_key((c, uuid)));
            }
            match graph_edge_weight(&self.graph, c, uuid) {
                Some(e) => {
                    let fp = copy_string(&e.fingerprint);
                    graph_add_edge(&mut self.graph, c, uuid, EdgeData { parent_hrid: new_hrid.clone(), fingerprint: fp });
                    proof {
                        assert(old_edges.contains_key((c, uuid)));
                        assert(graph_nodes(self.graph) =~= graph_nodes(old_self.graph));
                        assert(graph_edges(self.graph).dom() =~= old_edges.dom());
                        assert forall|k: (u128, u128)| #[trigger]
                            graph_edges(self.graph).contains_key(k) implies link_view(graph_edges(self.graph)[k]) == if k.1
                                == uuid && children@.take(j + 1).contains(k.0) {
                                ParentView { hrid: new_hrid@, fingerprint: link_view(old_edges[k]).fingerprint }
                            } else {
                                link_view(old_edges[k])
                            } by {
                            assert(children@.take(j + 1) =~= children@.take(j as int).push(c));
                            assert(children@.take(j + 1).contains(c)) by {
                                assert(children@.take(j + 1)[j as int] == c);
                            }
                            if k != (c, uuid) {
                                assert(before.contains_key(k));
                                assert(graph_edges(self.graph)[k] == before[k]);
                                if k.1 == uuid && children@.take(j + 1).contains(k.0) {
                                    assert(children@.take(j as int).contains(k.0));
                                }
                            } else {
                                assert(graph_edges(self.graph)[k].fingerprint@ == before[k].fingerprint@);
                                assert(link_view(before[k]) == link_view(old_edges[k])) by {
                                    assert(!children@.take(j as int).contains(c)) by {
                                        if children@.take(j as int).contains(c) {
                                            let t = choose|t: int| 0 <= t < j && children@.take(j as int)[t] == c;
                                            assert(children@[t] == children@[j as int]);
                                        }
                                    }
                                }
                                assert(!children@.take(j as int).contains(c)) by {
                                    if children@.take(j as int).contains(c) {
                                        let t = choose|t: int| 0 <= t < j && children@.take(j as int)[t] == c;
                                        assert(children@[t] == children@[j as int]);
                                    }
                                }
                            }
                        }
                    }
                },
                None => {
                    proof {
                        assert(false);
                    }
                },
            }
            j = j + 1;
        }
        let mut e = self.entries.remove(i);
        e.hrid = new_hrid.clone();
        self.entries.insert(i, e);
        proof {
            let es = old_self.entries@;
            assert(self.entries@ =~= es.update(i as int, e));
            lemma_reqs_of_update(es, i as int, e);
            let ne = self.entries@;
            assert forall|a: int, b: int|
                0 <= a < ne.len() && 0 <= b < ne.len() && a != b implies ne[a].hrid@ != ne[b].hrid@ by {
                if a != i {
                    assert(ne[a] == es[a]);
                }
                if b != i {
                    assert(ne[b] == es[b]);
                }
            }
            assert forall|a: int| 0 <= a < ne.len() implies graph_nodes(self.graph).contains(
                #[trigger] ne[a].uuid,
            ) by {
                if a != i {
                    assert(ne[a] == es[a]);
                }
            }
            assert(self.order() =~= old_self.order());
            assert forall|k: (u128, u128)| #[trigger]
                graph_edges(self.graph).contains_key(k) implies graph_nodes(self.graph).contains(k.0)
                && graph_nodes(self.graph).contains(k.1) && seq_has(self.order(), k.0) by {
                assert(old_edges.contains_key(k));
            }
            assert forall|u: u128| #[trigger] self.index@.contains_key(u) implies self.index@[u] < ne.len()
                && ne[self.index@[u] as int].uuid == u by {
                assert(old_self.index@.contains_key(u));
                assert(ne[self.index@[u] as int].uuid == es[self.index@[u] as int].uuid);
            }
            assert forall|a: int| 0 <= a < ne.len() implies self.index@.contains_key(#[trigger] ne[a].uuid) by {
                assert(ne[a].uuid == es[a].uuid);
                assert(old_self.index@.contains_key(es[a].uuid));
            }
            assert(self.wf());
            assert(children@.take(children@.len() as int) =~= children@);
            assert forall|k: (u128, u128)| #[trigger] self.links().contains_key(k) implies self.links()[k]
                == renamed_links(old_self.links(), uuid, new_hrid@)[k] by {
                if k.1 == uuid {
                    assert(old_self.links().contains_key(k));
                    assert(old_self.children_of(uuid).contains(k.0));
                    assert(children@.to_set().contains(k.0));
                }
            }
            assert(self.links().dom() =~= renamed_links(old_self.links(), uuid, new_hrid@).dom());
            assert(self.links() =~= renamed_links(old_self.links(), uuid, new_hrid@));
        }
        Ok((uuid, children))
    }
}


impl Tree {
    /// Every link as a `(child, parent)` pair, once each: the graph's nodes
    /// in order, and for each its parents in order.
    fn edge_pairs(&self) -> (r: Vec<(u128, u128)>)
        requires
            self.wf(),
        ensures
            r@.no_duplicates(),
            forall|k: (u128, u128)| #[trigger] r@.contains(k) <==> self.links().contains_key(k),
    {
        let ns = graph_node_list(&self.graph);
        let mut r: Vec<(u128, u128)> = Vec::new();
        let mut i: usize = 0;
        while i < ns.len()
            invariant
                self.wf(),
                i <= ns@.len(),
                ns@.no_duplicates(),
                ns@.to_set() == self.nodes(),
                r@.no_duplicates(),
                forall|k: (u128, u128)| #[trigger] r@.contains(k) <==> self.links().contains_key(k)
                    && ns@.take(i as int).contains(k.0),
            decreases ns@.len() - i,
        {
            let c = ns[i];
            proof {
                self.lemma_neighbours(c);
            }
            let ps = graph_neighbours(&self.graph, c, true);
            let mut j: usize = 0;
            while j < ps.len()
                invariant
                    self.wf(),
                    i < ns@.len(),
                    c == ns@[i as int],
                    j <= ps@.len(),
                    ns@.no_duplicates(),
                    ps@.no_duplicates(),
                    ps@.to_set() == self.parents_of(c),
                    r@.no_duplicates(),
                    forall|k: (u128, u128)| #[trigger] r@.contains(k) <==> self.links().contains_key(k)
                        && (ns@.take(i as int).contains(k.0) || (k.0 == c && ps@.take(j as int).contains(k.1))),
                decreases ps@.len() - j,
            {
                let p = ps[j];
                proof {
                    assert(ps@.to_set().contains(p));
                    assert(!r@.contains((c, p))) by {
                        if r@.contains((c, p)) {
                            if ns@.take(i as int).contains(c) {
                                let t = choose|t: int| 0 <= t < i && ns@.take(i as int)[t] == c;
                                assert(ns@[t] == ns@[i as int]);
                            } else {
                                let t = choose|t: int| 0 <= t < j && ps@.take(j as int)[t] == p;
                                assert(ps@[t] == ps@[j as int]);
                            }
                        }
                    }
                }
                let ghost r0 = r@;
                r.push((c, p));
                proof {
                    assert(r@ == r0.push((c, p)));
                    assert(ps@.take(j + 1) =~= ps@.take(j as int).push(p));
                    assert forall|k: (u128, u128)| #[trigger] r@.contains(k) <==> self.links().contains_key(k)
                        && (ns@.take(i as int).contains(k.0) || (k.0 == c && ps@.take(j + 1).contains(k.1))) by {
                        let tk = ps@.take(j + 1);
                        if k == (c, p) {
                            assert(r@[r@.len() - 1] == k);
                            assert(tk[j as int] == p);
                        } else {
                            if r@.contains(k) {
                                let t = choose|t: int| 0 <= t < r@.len() && r@[t] == k;
                                assert(r0[t] == k);
                                assert(r0.contains(k));
                                if ps@.take(j as int).contains(k.1) {
                                    let t2 = choose|t2: int| 0 <= t2 < j && ps@.take(j as int)[t2] == k.1;
                                    assert(tk[t2] == k.1);
                                }
                            }
                            if self.links().contains_key(k) && (ns@.take(i as int).contains(k.0) || (k.0 == c
                                && tk.contains(k.1))) {
                                if !ns@.take(i as int).contains(k.0) {
                                    let t = choose|t: int| 0 <= t < j + 1 && tk[t] == k.1;
                                    assert(t != j);
                                    assert(ps@.take(j as int)[t] == k.1);
                                }
                                assert(r0.contains(k));
                                let t = choose|t: int| 0 <= t < r0.len() && r0[t] == k;
                                assert(r@[t] == k);
                            }
                        }
                    }
                }
                j = j + 1;
            }
            proof {
                assert(ns@.take(i + 1) =~= ns@.take(i as int).push(c));
                assert(ps@.take(ps@.len() as int) =~= ps@);
                assert forall|k: (u128, u128)| #[trigger] r@.contains(k) <==> self.links().contains_key(k)
                    && ns@.take(i + 1).contains(k.0) by {
                    if self.links().contains_key(k) && k.0 == c {
                        assert(self.parents_of(c).contains(k.1));
                        assert(ps@.to_set().contains(k.1));
                    }
                    if ns@.take(i + 1).contains(k.0) && !ns@.take(i as int).contains(k.0) {
                        let tk = ns@.take(i + 1);
                        let t = choose|t: int| 0 <= t < i + 1 && tk[t] == k.0;
                        if t < i {
                            assert(ns@.take(i as int)[t] == k.0);
                        }
                    }
                    if k.0 == c {
                        assert(ns@.take(i + 1)[i as int] == c);
                    }
                    if ns@.take(i as int).contains(k.0) {
                        let t = choose|t: int| 0 <= t < i && ns@.take(i as int)[t] == k.0;
                        assert(ns@.take(i + 1)[t] == k.0);
                    }
                }
            }
            i = i + 1;
        }
        proof {
            assert(ns@.take(ns@.len() as int) =~= ns@);
            assert forall|k: (u128, u128)| #[trigger] r@.contains(k) <==> self.links().contains_key(k) by {
                if self.links().contains_key(k) {
                    assert(graph_edges(self.graph).contains_key(k));
                    assert(ns@.to_set().contains(k.0));
                }
            }
        }
        r
    }
}


// ---------------------------------------------------------------------------
// Suspect links and HRID drift
// ---------------------------------------------------------------------------

/// A link whose recorded parent fingerprint differs from the parent's
/// current one.
#[derive(Debug)]
pub struct SuspectLink {
    pub child_uuid: u128,
    pub child_hrid: Hrid,
    pub parent_uuid: u128,
    /// The parent HRID recorded on the link.
    pub parent_hrid: Hrid,
    /// The fingerprint recorded on the link.
    pub stored_fingerprint: String,
    /// The parent's current fingerprint; empty when the parent is not a
    /// requirement of the tree.
    pub current_fingerprint: String,
}

/// Errors from [`Tree::accept_suspect_link`].
#[derive(Debug, PartialEq, Eq)]
pub enum AcceptLinkError {
    /// The child is not a node of the graph.
    ChildNotFound(u128),
    /// The parent is not a requirement of the tree.
    ParentNotFound(u128),
    /// The child does not link to the parent.
    LinkNotFound { child: u128, parent: u128 },
}

/// The links after recording each parent's current HRID on every link to a
/// requirement.
pub open spec fn refreshed_links(links: Map<(u128, u128), ParentView>, reqs: Map<u128, ReqSpec>) -> Map<
    (u128, u128),
    ParentView,
> {
    Map::new(
        |k: (u128, u128)| links.contains_key(k),
        |k: (u128, u128)|
            if reqs.contains_key(k.1) {
                ParentView { hrid: reqs[k.1].hrid, fingerprint: links[k].fingerprint }
            } else {
                links[k]
            },
    )
}

/// The links after recording each parent's current fingerprint on every
/// link to a requirement.
pub open spec fn accepted_links(links: Map<(u128, u128), ParentView>, reqs: Map<u128, ReqSpec>) -> Map<
    (u128, u128),
    ParentView,
> {
    Map::new(
        |k: (u128, u128)| links.contains_key(k),
        |k: (u128, u128)|
            if reqs.contains_key(k.1) {
                ParentView { hrid: links[k].hrid, fingerprint: content_fingerprint(reqs[k.1]) }
            } else {
                links[k]
            },
    )
}

/// The `(child, parent)` pair a suspect link reports.
pub open spec fn suspect_key(s: SuspectLink) -> (u128, u128) {
    (s.child_uuid, s.parent_uuid)
}

/// The `(child, parent)` pairs of a list of suspect links.
pub open spec fn suspect_keys(v: Seq<SuspectLink>) -> Seq<(u128, u128)> {
    v.map_values(|s: SuspectLink| suspect_key(s))
}

impl Tree {
    /// The current fingerprint of `p`: that of its content, or empty when it
    /// is not a requirement.
    pub open spec fn current_fingerprint(&self, p: u128) -> Seq<char> {
        if self.reqs().contains_key(p) {
            content_fingerprint(self.reqs()[p])
        } else {
            Seq::empty()
        }
    }

    /// Link `k` records a parent HRID that is no longer the parent's.
    pub open spec fn link_drifted(&self, k: (u128, u128)) -> bool {
        &&& self.links().contains_key(k)
        &&& self.reqs().contains_key(k.1)
        &&& self.links()[k].hrid != self.reqs()[k.1].hrid
    }

    /// The children with at least one drifted link.
    pub open spec fn drifted(&self) -> Set<u128> {
        Set::new(|c: u128| exists|p: u128| #[trigger] self.link_drifted((c, p)))
    }

    /// Link `k` records a fingerprint other than the parent's current one.
    pub open spec fn is_suspect(&self, k: (u128, u128)) -> bool {
        &&& self.links().contains_key(k)
        &&& self.links()[k].fingerprint != self.current_fingerprint(k.1)
    }

    /// `s` reports the suspect link it names exactly.
    pub open spec fn reports(&self, s: SuspectLink) -> bool {
        let k = suspect_key(s);
        &&& self.is_suspect(k)
        &&& self.reqs().contains_key(k.0)
        &&& s.child_hrid@ == self.reqs()[k.0].hrid
        &&& s.parent_hrid@ == self.links()[k].hrid
        &&& s.stored_fingerprint@ == self.links()[k].fingerprint
        &&& s.current_fingerprint@ == self.current_fingerprint(k.1)
    }

    /// The child of every link is a requirement and a node.
    pub proof fn lemma_link_child_is_req(&self, k: (u128, u128))
        requires
            self.wf(),
            self.links().contains_key(k),
        ensures
            self.reqs().contains_key(k.0),
            self.nodes().contains(k.0),
    {
        assert(graph_edges(self.graph).contains_key(k));
        let t = choose|t: int| 0 <= t < self.order().len() && self.order()[t] == k.0;
        assert(self.entries@[t].uuid == k.0);
        self.lemma_reqs_dom(k.0);
    }

    /// The current fingerprint of the requirement at index `i`.
    fn fingerprint_at(&self, i: usize) -> (r: String)
        requires
            self.wf(),
            i < self.entries@.len(),
        ensures
            r@ == self.current_fingerprint(self.entries@[i as int].uuid),
    {
        proof {
            self.lemma_reqs_at(i as int);
        }
        let d = &self.entries[i].data;
        fingerprint(d.title.as_str(), d.body.as_str(), d.tags.as_slice())
    }

    /// The children that have a link recording a stale parent HRID, each
    /// once.
    pub fn check_hrid_drift(&self) -> (r: Vec<u128>)
        requires
            self.wf(),
        ensures
            r@.no_duplicates(),
            r@.to_set() == self.drifted(),
    {
        let pairs = self.edge_pairs();
        let mut r: Vec<u128> = Vec::new();
        let mut j: usize = 0;
        while j < pairs.len()
            invariant
                self.wf(),
                j <= pairs@.len(),
                r@.no_duplicates(),
                forall|c: u128| #[trigger] r@.contains(c) <==> exists|t: int|
                    0 <= t < j && #[trigger] self.link_drifted(pairs@[t]) && pairs@[t].0 == c,
            decreases pairs@.len() - j,
        {
            let (c, p) = pairs[j];
            let ghost k = (c, p);
            let mut hit = false;
            proof {
                assert(pairs@.contains(k));
            }
            match self.index_of_uuid(p) {
                Some(pi) => {
                    proof {
                        self.lemma_reqs_at(pi as int);
                    }
                    match graph_edge_weight(&self.graph, c, p) {
                        Some(e) => {
                            hit = !e.parent_hrid.same_as(&self.entries[pi].hrid);
                        },
                        None => {},
                    }
                },
                None => {},
            }
            proof {
                assert(hit == self.link_drifted(k));
            }
            let ghost r0 = r@;
            if hit && !vec_contains(&r, c) {
                r.push(c);
            }
            proof {
                assert(r@ == r0 || r@ == r0.push(c));
                assert forall|x: u128| #[trigger] r@.contains(x) <==> exists|t: int|
                    0 <= t < j + 1 && #[trigger] self.link_drifted(pairs@[t]) && pairs@[t].0 == x by {
                    if r@.contains(x) {
                        let t0 = choose|t0: int| 0 <= t0 < r@.len() && r@[t0] == x;
                        if t0 < r0.len() {
                            assert(r0[t0] == x);
                            assert(r0.contains(x));
                            let t = choose|t: int| 0 <= t < j && #[trigger] self.link_drifted(pairs@[t]) && pairs@[t].0 == x;
                            assert(0 <= t < j + 1 && self.link_drifted(pairs@[t]) && pairs@[t].0 == x);
                        } else {
                            assert(x == c && hit);
                            assert(self.link_drifted(pairs@[j as int]) && pairs@[j as int].0 == x);
                        }
                    }
                    if exists|t: int| 0 <= t < j + 1 && #[trigger] self.link_drifted(pairs@[t]) && pairs@[t].0 == x {
                        let t = choose|t: int| 0 <= t < j + 1 && #[trigger] self.link_drifted(pairs@[t]) && pairs@[t].0 == x;
                        if t < j {
                            assert(r0.contains(x));
                            let t0 = choose|t0: int| 0 <= t0 < r0.len() && r0[t0] == x;
                            assert(r@[t0] == x);
                        } else {
                            assert(x == c && hit);
                            if r0.contains(x) {
                                let t0 = choose|t0: int| 0 <= t0 < r0.len() && r0[t0] == x;
                                assert(r@[t0] == x);
                            } else {
                                assert(r@[r@.len() - 1] == x);
                            }
                        }
                    }
                }
            }
            j = j + 1;
        }
        proof {
            assert forall|c: u128| #[trigger] r@.to_set().contains(c) == self.drifted().contains(c) by {
                if r@.contains(c) {
                    let t = choose|t: int| 0 <= t < j && #[trigger] self.link_drifted(pairs@[t]) && pairs@[t].0 == c;
                    assert(self.link_drifted((c, pairs@[t].1)));
                }
                if self.drifted().contains(c) {
                    let p = choose|p: u128| #[trigger] self.link_drifted((c, p));
                    assert(pairs@.contains((c, p)));
                    let t = choose|t: int| 0 <= t < pairs@.len() && pairs@[t] == (c, p);
                    assert(self.link_drifted(pairs@[t]));
                }
            }
            assert(r@.to_set() =~= self.drifted());
        }
        r
    }
}


impl Tree {
    /// Records each parent's current HRID on every link to it, handing back
    /// the children whose links were stale, each once.
    pub fn update_hrids(&mut self) -> (r: Vec<u128>)
        requires
            old(self).wf(),
        ensures
            final(self).wf(),
            r@.no_duplicates(),
            r@.to_set() == old(self).drifted(),
            final(self).reqs() == old(self).reqs(),
            final(self).order() == old(self).order(),
            final(self).nodes() == old(self).nodes(),
            final(self).links() == refreshed_links(old(self).links(), old(self).reqs()),
            final(self).drifted().is_empty(),
    {
        let updated = self.check_hrid_drift();
        let pairs = self.edge_pairs();
        let ghost old_self = *self;
        let ghost old_edges = graph_edges(self.graph);
        let ghost target = refreshed_links(old_self.links(), old_self.reqs());
        let mut j: usize = 0;
        while j < pairs.len()
            invariant
                self.wf(),
                old_self.wf(),
                j <= pairs@.len(),
                self.entries == old_self.entries,
                old_edges == graph_edges(old_self.graph),
                target == refreshed_links(old_self.links(), old_self.reqs()),
                pairs@.no_duplicates(),
                forall|k: (u128, u128)| #[trigger] pairs@.contains(k) <==> old_self.links().contains_key(k),
                graph_nodes(self.graph) == graph_nodes(old_self.graph),
                graph_edges(self.graph).dom() == old_edges.dom(),
                forall|k: (u128, u128)| #[trigger]
                    graph_edges(self.graph).contains_key(k) ==> link_view(graph_edges(self.graph)[k]) == if pairs@.take(
                        j as int,
                    ).contains(k) {
                        target[k]
                    } else {
                        old_self.links()[k]
                    },
            decreases pairs@.len() - j,
        {
            let (c, p) = pairs[j];
            let ghost k0 = (c, p);
            let ghost before = graph_edges(self.graph);
            proof {
                assert(pairs@.contains(k0));
                assert(!pairs@.take(j as int).contains(k0)) by {
                    if pairs@.take(j as int).contains(k0) {
                        let t = choose|t: int| 0 <= t < j && pairs@.take(j as int)[t] == k0;
                        assert(pairs@[t] == pairs@[j as int]);
                    }
                }
                assert(pairs@.take(j + 1) =~= pairs@.take(j as int).push(k0));
                assert(self.reqs() == old_self.reqs());
            }
            match self.index_of_uuid(p) {
                Some(pi) => {
                    proof {
                        self.lemma_reqs_at(pi as int);
                    }
                    match graph_edge_weight(&self.graph, c, p) {
                        Some(e) => {
                            if !e.parent_hrid.same_as(&self.entries[pi].hrid) {
                                let fp = copy_string(&e.fingerprint);
                                let h = self.entries[pi].hrid.clone();
                                graph_add_edge(&mut self.graph, c, p, EdgeData { parent_hrid: h, fingerprint: fp });
                                proof {
                                    assert(graph_nodes(self.graph) =~= graph_nodes(old_self.graph));
                                    assert(graph_edges(self.graph).dom() =~= old_edges.dom());
                                }
                            }
                        },
                        None => {},
                    }
                },
                None => {},
            }
            proof {
                assert(graph_edges(self.graph).dom() =~= old_edges.dom());
                assert forall|k: (u128, u128)| #[trigger]
                    graph_edges(self.graph).contains_key(k) implies link_view(graph_edges(self.graph)[k]) == if pairs@.take(
                        j + 1,
                    ).contains(k) {
                        target[k]
                    } else {
                        old_self.links()[k]
                    } by {
                    assert(old_edges.contains_key(k));
                    assert(before.contains_key(k));
                    if k != k0 {
                        assert(graph_edges(self.graph)[k] == before[k]);
                        if pairs@.take(j + 1).contains(k) {
                            let tk = pairs@.take(j + 1);
                            let t = choose|t: int| 0 <= t < j + 1 && tk[t] == k;
                            assert(t != j);
                            assert(pairs@.take(j as int)[t] == k);
                        }
                        if pairs@.take(j as int).contains(k) {
                            let t = choose|t: int| 0 <= t < j && pairs@.take(j as int)[t] == k;
                            assert(pairs@.take(j + 1)[t] == k);
                        }
                    } else {
                        assert(pairs@.take(j + 1)[j as int] == k0);
                        assert(old_self.links()[k0] == link_view(before[k0]));
                    }
                }
                assert forall|k: (u128, u128)| #[trigger]
                    graph_edges(self.graph).contains_key(k) implies graph_nodes(self.graph).contains(k.0)
                    && graph_nodes(self.graph).contains(k.1) && seq_has(self.order(), k.0) by {
                    assert(old_edges.contains_key(k));
                }
                assert(self.wf());
            }
            j = j + 1;
        }
        proof {
            assert(pairs@.take(pairs@.len() as int) =~= pairs@);
            assert(self.reqs() == old_self.reqs());
            assert forall|k: (u128, u128)| #[trigger] self.links().contains_key(k) implies self.links()[k]
                == target[k] by {
                assert(pairs@.contains(k));
            }
            assert(self.links() =~= target);
            assert(self.drifted() =~= Set::<u128>::empty()) by {
                assert forall|c: u128| !self.drifted().contains(c) by {
                    if self.drifted().contains(c) {
                        let p = choose|p: u128| #[trigger] self.link_drifted((c, p));
                        assert(self.links()[(c, p)] == target[(c, p)]);
                    }
                }
            }
        }
        updated
    }
}


impl Tree {
    /// Every suspect link, once each, in the order of [`Tree::edge_pairs`].
    pub fn suspect_links(&self) -> (r: Vec<SuspectLink>)
        requires
            self.wf(),
        ensures
            suspect_keys(r@).no_duplicates(),
            forall|k: (u128, u128)|
                #[trigger] suspect_keys(r@).contains(k) <==> self.is_suspect(k),
            forall|i: int| 0 <= i < r@.len() ==> self.reports(#[trigger] r@[i]),
    {
        let pairs = self.edge_pairs();
        let mut r: Vec<SuspectLink> = Vec::new();
        let mut j: usize = 0;
        while j < pairs.len()
            invariant
                self.wf(),
                j <= pairs@.len(),
                pairs@.no_duplicates(),
                forall|k: (u128, u128)| #[trigger] pairs@.contains(k) <==> self.links().contains_key(k),
                forall|i: int| 0 <= i < r@.len() ==> self.reports(#[trigger] r@[i]),
                suspect_keys(r@).no_duplicates(),
                forall|k: (u128, u128)|
                    #[trigger] suspect_keys(r@).contains(k) <==> self.is_suspect(k)
                        && pairs@.take(j as int).contains(k),
            decreases pairs@.len() - j,
        {
            let (c, p) = pairs[j];
            let ghost k0 = (c, p);
            let ghost keys0 = suspect_keys(r@);
            proof {
                assert(pairs@.contains(k0));
                self.lemma_link_child_is_req(k0);
                assert(!pairs@.take(j as int).contains(k0)) by {
                    if pairs@.take(j as int).contains(k0) {
                        let t = choose|t: int| 0 <= t < j && pairs@.take(j as int)[t] == k0;
                        assert(pairs@[t] == pairs@[j as int]);
                    }
                }
                assert(pairs@.take(j + 1) =~= pairs@.take(j as int).push(k0));
            }
            let ci = match self.index_of_uuid(c) {
                Some(i) => i,
                None => {
                    proof {
                        assert(false);
                    }
                    j = j + 1;
                    continue;
                },
            };
            proof {
                self.lemma_reqs_at(ci as int);
            }
            let current = match self.index_of_uuid(p) {
                Some(pi) => self.fingerprint_at(pi),
                None => String::new(),
            };
            let w = graph_edge_weight(&self.graph, c, p);
            match w {
                Some(e) => {
                    if !str_eq(e.fingerprint.as_str(), current.as_str()) {
                        let link = SuspectLink {
                            child_uuid: c,
                            child_hrid: self.entries[ci].hrid.clone(),
                            parent_uuid: p,
                            parent_hrid: e.parent_hrid.clone(),
                            stored_fingerprint: copy_string(&e.fingerprint),
                            current_fingerprint: current,
                        };
                        proof {
                            assert(self.reports(link));
                        }
                        r.push(link);
                        proof {
                            let ks = suspect_keys(r@);
                            assert(ks =~= keys0.push(k0));
                            assert(!keys0.contains(k0));
                            assert forall|a: int, b: int| 0 <= a < ks.len() && 0 <= b < ks.len() && a != b implies ks[a]
                                != ks[b] by {
                                if a == ks.len() - 1 {
                                    assert(keys0[b] == ks[b]);
                                } else if b == ks.len() - 1 {
                                    assert(keys0[a] == ks[a]);
                                } else {
                                    assert(keys0[a] == ks[a] && keys0[b] == ks[b]);
                                }
                            }
                        }
                    } else {
                        proof {
                            assert(!self.is_suspect(k0));
                        }
                    }
                },
                None => {
                    proof {
                        assert(false);
                    }
                },
            }
            proof {
                let keys = suspect_keys(r@);
                assert forall|k: (u128, u128)| #[trigger] keys.contains(k) <==> self.is_suspect(k)
                    && pairs@.take(j + 1).contains(k) by {
                    let tk = pairs@.take(j + 1);
                    if k == k0 {
                        assert(tk[j as int] == k0);
                        if keys.contains(k) && !self.is_suspect(k0) {
                            assert(keys == keys0);
                        }
                        if self.is_suspect(k0) {
                            assert(keys[keys.len() - 1] == k0);
                        }
                    } else {
                        if keys.contains(k) {
                            let t = choose|t: int| 0 <= t < keys.len() && keys[t] == k;
                            assert(t < keys0.len());
                            assert(keys0[t] == k);
                            assert(keys0.contains(k));
                            let t2 = choose|t2: int| 0 <= t2 < j && pairs@.take(j as int)[t2] == k;
                            assert(tk[t2] == k);
                        }
                        if self.is_suspect(k) && tk.contains(k) {
                            let t = choose|t: int| 0 <= t < j + 1 && tk[t] == k;
                            assert(pairs@.take(j as int)[t] == k);
                            assert(keys0.contains(k));
                            let t2 = choose|t2: int| 0 <= t2 < keys0.len() && keys0[t2] == k;
                            assert(keys[t2] == k);
                        }
                    }
                }
            }
            j = j + 1;
        }
        proof {
            assert(pairs@.take(pairs@.len() as int) =~= pairs@);
        }
        r
    }

    /// Records the parent's current fingerprint on the link from
    /// `child_uuid` to `parent_uuid`; `true` when it changed.
    pub fn accept_suspect_link(&mut self, child_uuid: u128, parent_uuid: u128) -> (r: Result<bool, AcceptLinkError>)
        requires
            old(self).wf(),
        ensures
            final(self).wf(),
            match r {
                Err(AcceptLinkError::ChildNotFound(u)) => {
                    &&& u == child_uuid
                    &&& !old(self).nodes().contains(child_uuid)
                    &&& *final(self) == *old(self)
                },
                Err(AcceptLinkError::ParentNotFound(u)) => {
                    &&& u == parent_uuid
                    &&& old(self).nodes().contains(child_uuid)
                    &&& !old(self).reqs().contains_key(parent_uuid)
                    &&& *final(self) == *old(self)
                },
                Err(AcceptLinkError::LinkNotFound { child, parent }) => {
                    &&& child == child_uuid
                    &&& parent == parent_uuid
                    &&& old(self).nodes().contains(child_uuid)
                    &&& old(self).reqs().contains_key(parent_uuid)
                    &&& !old(self).links().contains_key((child_uuid, parent_uuid))
                    &&& *final(self) == *old(self)
                },
                Ok(changed) => {
                    let k = (child_uuid, parent_uuid);
                    let fp = content_fingerprint(old(self).reqs()[parent_uuid]);
                    &&& old(self).reqs().contains_key(parent_uuid)
                    &&& old(self).links().contains_key(k)
                    &&& changed == (old(self).links()[k].fingerprint != fp)
                    &&& final(self).reqs() == old(self).reqs()
                    &&& final(self).order() == old(self).order()
                    &&& final(self).nodes() == old(self).nodes()
                    &&& final(self).links() == old(self).links().insert(
                        k,
                        ParentView { hrid: old(self).links()[k].hrid, fingerprint: fp },
                    )
                    &&& !final(self).is_suspect(k)
                },
            },
    {
        if !graph_contains_node(&self.graph, child_uuid) {
            return Err(AcceptLinkError::ChildNotFound(child_uuid));
        }
        let pi = match self.index_of_uuid(parent_uuid) {
            Some(i) => i,
            None => {
                return Err(AcceptLinkError::ParentNotFound(parent_uuid));
            },
        };
        let current = self.fingerprint_at(pi);
        proof {
            self.lemma_reqs_at(pi as int);
        }
        let ghost old_self = *self;
        let k = (child_uuid, parent_uuid);
        match graph_edge_weight(&self.graph, child_uuid, parent_uuid) {
            Some(e) => {
                if str_eq(e.fingerprint.as_str(), current.as_str()) {
                    proof {
                        assert(self.links().insert(
                            k,
                            ParentView { hrid: self.links()[k].hrid, fingerprint: current@ },
                        ) =~= self.links());
                    }
                    return Ok(false);
                }
                let h = e.parent_hrid.clone();
                graph_add_edge(&mut self.graph, child_uuid, parent_uuid, EdgeData { parent_hrid: h, fingerprint: current });
                proof {
                    assert(graph_nodes(self.graph) =~= graph_nodes(old_self.graph));
                    assert forall|q: (u128, u128)| #[trigger]
                        graph_edges(self.graph).contains_key(q) implies graph_nodes(self.graph).contains(q.0)
                        && graph_nodes(self.graph).contains(q.1) && seq_has(self.order(), q.0) by {
                        assert(graph_edges(old_self.graph).contains_key(q));
                    }
                    assert(self.wf());
                    assert(self.links() =~= old_self.links().insert(
                        k,
                        ParentView { hrid: old_self.links()[k].hrid, fingerprint: content_fingerprint(old_self.reqs()[parent_uuid]) },
                    ));
                }
                Ok(true)
            },
            None => Err(AcceptLinkError::LinkNotFound { child: child_uuid, parent: parent_uuid }),
        }
    }

    /// Accepts every suspect link whose parent is a requirement, handing
    /// back the links that changed.
    pub fn accept_all_suspect_links(&mut self) -> (r: Vec<(u128, u128)>)
        requires
            old(self).wf(),
        ensures
            final(self).wf(),
            r@.no_duplicates(),
            forall|k: (u128, u128)| #[trigger] r@.contains(k) <==> old(self).is_suspect(k)
                && old(self).reqs().contains_key(k.1),
            final(self).reqs() == old(self).reqs(),
            final(self).order() == old(self).order(),
            final(self).nodes() == old(self).nodes(),
            final(self).links() == accepted_links(old(self).links(), old(self).reqs()),
            forall|k: (u128, u128)| #[trigger] final(self).is_suspect(k) ==> !final(self).reqs().contains_key(k.1),
    {
        let suspect = self.suspect_links();
        let ghost old_self = *self;
        let ghost keys = suspect_keys(suspect@);
        let ghost target = accepted_links(old_self.links(), old_self.reqs());
        let mut updated: Vec<(u128, u128)> = Vec::new();
        let mut j: usize = 0;
        while j < suspect.len()
            invariant
                self.wf(),
                old_self.wf(),
                j <= suspect@.len(),
                keys == suspect_keys(suspect@),
                target == accepted_links(old_self.links(), old_self.reqs()),
                keys.no_duplicates(),
                forall|k: (u128, u128)| #[trigger] keys.contains(k) <==> old_self.is_suspect(k),
                self.reqs() == old_self.reqs(),
                self.order() == old_self.order(),
                self.nodes() == old_self.nodes(),
                self.links().dom() == old_self.links().dom(),
                forall|k: (u128, u128)| #[trigger]
                    self.links().contains_key(k) ==> self.links()[k] == if keys.take(j as int).contains(k) {
                        target[k]
                    } else {
                        old_self.links()[k]
                    },
                updated@.no_duplicates(),
                forall|k: (u128, u128)| #[trigger] updated@.contains(k) <==> keys.take(j as int).contains(k)
                    && old_self.reqs().contains_key(k.1),
            decreases suspect@.len() - j,
        {
            let c = suspect[j].child_uuid;
            let p = suspect[j].parent_uuid;
            let ghost k0 = (c, p);
            let ghost links0 = self.links();
            let ghost u0 = updated@;
            proof {
                assert(keys[j as int] == k0);
                assert(keys.contains(k0));
                assert(!keys.take(j as int).contains(k0)) by {
                    if keys.take(j as int).contains(k0) {
                        let t = choose|t: int| 0 <= t < j && keys.take(j as int)[t] == k0;
                        assert(keys[t] == keys[j as int]);
                    }
                }
                assert(keys.take(j + 1) =~= keys.take(j as int).push(k0));
                assert(links0[k0] == old_self.links()[k0]);
                old_self.lemma_link_child_is_req(k0);
            }
            let res = self.accept_suspect_link(c, p);
            match res {
                Ok(true) => {
                    updated.push((c, p));
                    proof {
                        let us = updated@;
                        assert(!u0.contains(k0));
                        assert forall|a: int, b: int| 0 <= a < us.len() && 0 <= b < us.len() && a != b implies us[a]
                            != us[b] by {
                            if a == us.len() - 1 {
                                assert(u0[b] == us[b]);
                            } else if b == us.len() - 1 {
                                assert(u0[a] == us[a]);
                            } else {
                                assert(u0[a] == us[a] && u0[b] == us[b]);
                            }
                        }
                    }
                },
                _ => {},
            }
            proof {
                let tk = keys.take(j + 1);
                assert(tk[j as int] == k0);
                assert(self.links().dom() =~= old_self.links().dom());
                assert forall|k: (u128, u128)| #[trigger]
                    self.links().contains_key(k) implies self.links()[k] == if tk.contains(k) {
                        target[k]
                    } else {
                        old_self.links()[k]
                    } by {
                    if k != k0 {
                        if tk.contains(k) {
                            let t = choose|t: int| 0 <= t < j + 1 && tk[t] == k;
                            assert(keys.take(j as int)[t] == k);
                        }
                        if keys.take(j as int).contains(k) {
                            let t = choose|t: int| 0 <= t < j && keys.take(j as int)[t] == k;
                            assert(tk[t] == k);
                        }
                    }
                }
                assert forall|k: (u128, u128)| #[trigger] updated@.contains(k) <==> tk.contains(k)
                    && old_self.reqs().contains_key(k.1) by {
                    if k != k0 {
                        if updated@.contains(k) {
                            let t = choose|t: int| 0 <= t < updated@.len() && updated@[t] == k;
                            assert(t < u0.len());
                            assert(u0[t] == k);
                            assert(u0.contains(k));
                            let t2 = choose|t2: int| 0 <= t2 < j && keys.take(j as int)[t2] == k;
                            assert(tk[t2] == k);
                        }
                        if tk.contains(k) && old_self.reqs().contains_key(k.1) {
                            let t = choose|t: int| 0 <= t < j + 1 && tk[t] == k;
                            assert(keys.take(j as int)[t] == k);
                            assert(u0.contains(k));
                            let t2 = choose|t2: int| 0 <= t2 < u0.len() && u0[t2] == k;
                            assert(updated@[t2] == k);
                        }
                    } else {
                        if old_self.reqs().contains_key(k.1) {
                            assert(updated@[updated@.len() - 1] == k);
                        }
                        if updated@.contains(k) {
                            assert(!u0.contains(k));
                        }
                    }
                }
            }
            j = j + 1;
        }
        proof {
            assert(keys.take(suspect@.len() as int) =~= keys);
            assert forall|k: (u128, u128)| #[trigger] self.links().contains_key(k) implies self.links()[k]
                == target[k] by {
                if !keys.contains(k) && old_self.reqs().contains_key(k.1) {
                    assert(!old_self.is_suspect(k));
                }
            }
            assert(self.links() =~= target);
            assert forall|k: (u128, u128)| #[trigger] self.is_suspect(k) implies !self.reqs().contains_key(k.1) by {
                assert(self.links()[k] == target[k]);
            }
        }
        updated
    }
}


// ---------------------------------------------------------------------------
// Cycle detection
// ---------------------------------------------------------------------------

/// The identifiers of a list of HRIDs.
pub open spec fn hrids_view(v: Seq<Hrid>) -> Seq<SpecHrid> {
    v.map_values(|h: Hrid| h@)
}

/// A cycle path without the closing element that repeats its start.
pub open spec fn open_cycle(c: Seq<SpecHrid>) -> Seq<SpecHrid> {
    if c.len() >= 2 && c[0] == c.last() {
        c.drop_last()
    } else {
        c
    }
}

/// `a` read from position `off` of `b` onwards, wrapping round.
pub open spec fn is_rotation_at(a: Seq<SpecHrid>, b: Seq<SpecHrid>, off: int) -> bool {
    forall|i: int| 0 <= i < a.len() ==> a[i] == #[trigger] b[(off + i) % (b.len() as int)]
}

/// Two cycle paths describe the same cycle: once opened, one is a rotation
/// of the other.
pub open spec fn same_cycle(a: Seq<SpecHrid>, b: Seq<SpecHrid>) -> bool {
    let oa = open_cycle(a);
    let ob = open_cycle(b);
    &&& oa.len() == ob.len()
    &&& (oa.len() == 0 || exists|off: int| 0 <= off < ob.len() && #[trigger] is_rotation_at(oa, ob, off))
}

proof fn lemma_wrap_index(off: int, i: int, n: int)
    requires
        0 <= off < n,
        0 <= i < n,
    ensures
        (off + i) % n == if off + i < n { off + i } else { off + i - n },
{
    if off + i < n {
        vstd::arithmetic::div_mod::lemma_small_mod((off + i) as nat, n as nat);
    } else {
        vstd::arithmetic::div_mod::lemma_small_mod((off + i - n) as nat, n as nat);
        vstd::arithmetic::div_mod::lemma_mod_add_multiples_vanish(off + i - n, n);
    }
}

/// The length of a cycle path once its closing element is dropped.
fn open_len(c: &[Hrid]) -> (r: usize)
    ensures
        r == open_cycle(hrids_view(c@)).len(),
{
    let n = c.len();
    if n >= 2 && c[0].same_as(&c[n - 1]) {
        n - 1
    } else {
        n
    }
}

impl Tree {
    /// Whether two cycle paths describe the same cycle: equal once the
    /// closing element is dropped, up to rotation.
    pub fn cycles_equal(a: &[Hrid], b: &[Hrid]) -> (r: bool)
        ensures
            r == same_cycle(hrids_view(a@), hrids_view(b@)),
    {
        let ghost oa = open_cycle(hrids_view(a@));
        let ghost ob = open_cycle(hrids_view(b@));
        let la = open_len(a);
        let lb = open_len(b);
        proof {
            assert forall|i: int| 0 <= i < la implies oa[i] == a@[i]@ by {}
            assert forall|i: int| 0 <= i < lb implies ob[i] == b@[i]@ by {}
        }
        if la != lb {
            return false;
        }
        if la == 0 {
            return true;
        }
        let mut off: usize = 0;
        while off < lb
            invariant
                la == lb,
                la > 0,
                la == oa.len(),
                lb == ob.len(),
                la <= a@.len(),
                lb <= b@.len(),
                oa == open_cycle(hrids_view(a@)),
                ob == open_cycle(hrids_view(b@)),
                forall|i: int| 0 <= i < la ==> oa[i] == a@[i]@,
                forall|i: int| 0 <= i < lb ==> ob[i] == b@[i]@,
                off <= lb,
                forall|o: int| 0 <= o < off ==> !#[trigger] is_rotation_at(oa, ob, o),
            decreases lb - off,
        {
            let mut i: usize = 0;
            let mut all = true;
            while i < la
                invariant
                    la == lb,
                    la == oa.len(),
                    lb == ob.len(),
                    la <= a@.len(),
                    lb <= b@.len(),
                    forall|t: int| 0 <= t < la ==> oa[t] == a@[t]@,
                    forall|t: int| 0 <= t < lb ==> ob[t] == b@[t]@,
                    off < lb,
                    i <= la,
                    all == forall|t: int| 0 <= t < i ==> oa[t] == #[trigger] ob[(off + t) % (lb as int)],
                decreases la - i,
            {
                let j = if i < lb - off {
                    off + i
                } else {
                    i - (lb - off)
                };
                proof {
                    lemma_wrap_index(off as int, i as int, lb as int);
                }
                let ghost all0 = all;
                let same = a[i].same_as(&b[j]);
                if !same {
                    all = false;
                }
                proof {
                    let k = (off + i) % (lb as int);
                    assert(k == j);
                    assert(ob[k] == b@[j as int]@);
                    assert(same == (oa[i as int] == ob[k]));
                    if all {
                        assert forall|t: int| 0 <= t < i + 1 implies oa[t] == #[trigger] ob[(off + t) % (lb as int)] by {
                            if t < i {
                                assert(all0);
                            }
                        }
                    } else {
                        assert(!(oa[i as int] == ob[(off + i) % (lb as int)]) || !all0);
                    }
                }
                i = i + 1;
            }
            if all {
                proof {
                    assert(is_rotation_at(oa, ob, off as int));
                }
                return true;
            }
            proof {
                assert(!is_rotation_at(oa, ob, off as int));
            }
            off = off + 1;
        }
        false
    }
}


/// The HRIDs of the requirements along a walk, in order; nodes that are not
/// requirements are skipped.
pub open spec fn walk_hrids(reqs: Map<u128, ReqSpec>, p: Seq<u128>) -> Seq<SpecHrid>
    decreases p.len(),
{
    if p.len() == 0 {
        Seq::empty()
    } else if reqs.contains_key(p.last()) {
        walk_hrids(reqs, p.drop_last()).push(reqs[p.last()].hrid)
    } else {
        walk_hrids(reqs, p.drop_last())
    }
}

impl Tree {
    /// `c` lists the requirement HRIDs along a simple closed walk of at least
    /// one link: it ends where it starts and passes no other node twice.
    pub open spec fn is_cycle_of(&self, c: Seq<SpecHrid>) -> bool {
        exists|w: Seq<u128>|
            is_walk(self.links(), true, w) && w.len() >= 2 && w[0] == w.last() && w.drop_last().no_duplicates()
                && c == #[trigger] walk_hrids(self.reqs(), w)
    }

    /// Every list in `cs` is a cycle of the tree, and no two describe the
    /// same cycle.
    pub open spec fn cycle_list(&self, cs: Seq<Vec<Hrid>>) -> bool {
        &&& forall|i: int| 0 <= i < cs.len() ==> self.is_cycle_of(hrids_view((#[trigger] cs[i])@))
        &&& forall|i: int, j: int|
            0 <= i < j < cs.len() ==> !same_cycle(hrids_view((#[trigger] cs[i])@), hrids_view((#[trigger] cs[j])@))
    }

    /// Records the cycle closed by the link from the end of `path` back to
    /// `p`, unless an equal cycle is already listed.
    fn record_cycle(&self, path: &Vec<u128>, p: u128, cycles: &mut Vec<Vec<Hrid>>)
        requires
            self.wf(),
            path@.len() > 0,
            path@.no_duplicates(),
            is_walk(self.links(), true, path@),
            path@.contains(p),
            self.links().contains_key((path@.last(), p)),
            self.cycle_list(old(cycles)@),
        ensures
            self.cycle_list(final(cycles)@),
            final(cycles)@.len() > 0,
            old(cycles)@.len() <= final(cycles)@.len(),
    {
        let mut pos: usize = 0;
        while pos < path.len() && path[pos] != p
            invariant
                pos <= path@.len(),
                path@.contains(p),
                forall|t: int| 0 <= t < pos ==> path@[t] != p,
            decreases path@.len() - pos,
        {
            pos = pos + 1;
        }
        proof {
            if pos == path@.len() {
                let t = choose|t: int| 0 <= t < path@.len() && path@[t] == p;
                assert(false);
            }
        }
        proof {
            if pos >= path@.len() {
                let t = choose|t: int| 0 <= t < path@.len() && path@[t] == p;
                assert(path@[t] != p);
            }
        }
        let ghost w = path@.subrange(pos as int, path@.len() as int).push(p);
        let mut cycle: Vec<Hrid> = Vec::new();
        let mut k: usize = pos;
        while k < path.len()
            invariant
                self.wf(),
                pos <= k <= path@.len(),
                pos < path@.len(),
                w == path@.subrange(pos as int, path@.len() as int).push(p),
                hrids_view(cycle@) == walk_hrids(self.reqs(), w.take(k - pos)),
            decreases path@.len() - k,
        {
            let u = path[k];
            proof {
                assert(w[k - pos] == u);
                assert(w.take(k - pos + 1).drop_last() =~= w.take(k - pos));
                assert(w.take(k - pos + 1).last() == u);
            }
            match self.index_of_uuid(u) {
                Some(i) => {
                    proof {
                        self.lemma_reqs_at(i as int);
                    }
                    cycle.push(self.entries[i].hrid.clone());
                    proof {
                        assert(hrids_view(cycle@) =~= hrids_view(cycle@.drop_last()).push(cycle@.last()@));
                    }
                },
                None => {},
            }
            k = k + 1;
        }
        proof {
            let n = w.len() - 1;
            assert(w[n] == p);
            assert(w.take(n + 1).drop_last() =~= w.take(n));
            assert(w.take(n + 1) =~= w);
        }
        match self.index_of_uuid(p) {
            Some(i) => {
                proof {
                    self.lemma_reqs_at(i as int);
                }
                cycle.push(self.entries[i].hrid.clone());
                proof {
                    assert(hrids_view(cycle@) =~= hrids_view(cycle@.drop_last()).push(cycle@.last()@));
                }
            },
            None => {},
        }
        proof {
            let q = path@.subrange(pos as int, path@.len() as int);
            assert forall|i: int| 0 <= i < q.len() - 1 implies #[trigger] step(self.links(), true, q[i], q[i + 1]) by {
                assert(step(self.links(), true, path@[pos + i], path@[pos + i + 1]));
            }
            assert(q.last() == path@.last());
            assert(step(self.links(), true, q.last(), p));
            lemma_walk_extend(self.links(), true, q, p);
            assert(is_walk(self.links(), true, w));
            assert(w[0] == p);
            assert(w.last() == p);
            assert(w.len() >= 2);
            assert(w.drop_last() =~= q);
            assert(q.no_duplicates()) by {
                assert forall|a: int, b: int| 0 <= a < q.len() && 0 <= b < q.len() && a != b implies q[a] != q[b] by {
                    assert(q[a] == path@[pos + a] && q[b] == path@[pos + b]);
                }
            }
            assert(hrids_view(cycle@) == walk_hrids(self.reqs(), w));
            assert(self.is_cycle_of(hrids_view(cycle@)));
            // The walk starts at a link's source, which is a requirement.
            let z: int = 0;
            assert(step(self.links(), true, w[z], w[z + 1]));
            self.lemma_link_child_is_req((w[0], w[1]));
            assert(hrids_view(cycle@).len() > 0);
        }
        if cycle.len() == 0 {
            return;
        }
        let mut i: usize = 0;
        while i < cycles.len()
            invariant
                i <= cycles@.len(),
                cycles@ == old(cycles)@,
                self.cycle_list(cycles@),
                self.is_cycle_of(hrids_view(cycle@)),
                forall|t: int| 0 <= t < i ==> !same_cycle(hrids_view((#[trigger] cycles@[t])@), hrids_view(cycle@)),
            decreases cycles@.len() - i,
        {
            if Tree::cycles_equal(cycles[i].as_slice(), cycle.as_slice()) {
                return;
            }
            i = i + 1;
        }
        let ghost old_cycles = cycles@;
        cycles.push(cycle);
        proof {
            let cs = cycles@;
            assert forall|a: int| 0 <= a < cs.len() implies self.is_cycle_of(hrids_view((#[trigger] cs[a])@)) by {
                if a < old_cycles.len() {
                    assert(cs[a] == old_cycles[a]);
                }
            }
            assert forall|a: int, b: int|
                0 <= a < b < cs.len() implies !same_cycle(hrids_view((#[trigger] cs[a])@), hrids_view((#[trigger] cs[b])@)) by {
                assert(cs[a] == old_cycles[a]);
                if b < old_cycles.len() {
                    assert(cs[b] == old_cycles[b]);
                }
            }
        }
    }
}


/// The state of a node during the depth-first search for cycles; nodes not
/// yet visited have no colour.
#[derive(PartialEq, Eq, Structural, Clone, Copy)]
enum Color {
    /// On the current search path.
    Gray,
    /// Finished: every node reachable from it has been searched.
    Black,
}

/// A node on the search stack with its parents and the next one to visit.
struct Frame {
    node: u128,
    parents: Vec<u128>,
    next: usize,
}

spec fn is_gray(cm: Map<u128, Color>, u: u128) -> bool {
    cm.contains_key(u) && cm[u] == Color::Gray
}

spec fn is_black(cm: Map<u128, Color>, u: u128) -> bool {
    cm.contains_key(u) && cm[u] == Color::Black
}

spec fn frame_nodes(st: Seq<Frame>) -> Seq<u128> {
    st.map_values(|f: Frame| f.node)
}

spec fn frame_work(f: Frame) -> nat {
    if f.next <= f.parents@.len() {
        (f.parents@.len() - f.next + 1) as nat
    } else {
        1
    }
}

spec fn stack_work(st: Seq<Frame>) -> nat
    decreases st.len(),
{
    if st.len() == 0 {
        0
    } else {
        stack_work(st.drop_last()) + frame_work(st.last())
    }
}

/// While no cycle has been found: every parent that a frame has already
/// visited is finished, except the one whose frame sits just above it.
spec fn frames_ok(cm: Map<u128, Color>, st: Seq<Frame>) -> bool {
    forall|s: int, t: int|
        0 <= s < st.len() && 0 <= t < st[s].next ==> is_black(cm, #[trigger] st[s].parents@[t]) || (s + 1
            < st.len() && t == st[s].next - 1 && st[s].parents@[t] == st[s + 1].node)
}

impl Tree {
    /// While no cycle has been found: finished nodes carry distinct finishing
    /// numbers below `counter`, and every parent of a finished node finished
    /// before it.
    spec fn finished_ok(&self, cm: Map<u128, Color>, fin: Map<u128, nat>, counter: nat) -> bool {
        forall|u: u128| #[trigger]
            is_black(cm, u) ==> fin.contains_key(u) && fin[u] < counter && forall|v: u128| #[trigger]
                self.links().contains_key((u, v)) ==> is_black(cm, v) && fin[v] < fin[u]
    }

    /// Each frame lists the parents of its node, and each frame's node is a
    /// parent of the one below it.
    spec fn stack_ok(&self, st: Seq<Frame>) -> bool {
        &&& forall|s: int|
            0 <= s < st.len() ==> (#[trigger] st[s]).next <= st[s].parents@.len() && st[s].parents@.to_set()
                == self.parents_of(st[s].node)
        &&& forall|s: int| 0 <= s < st.len() - 1 ==> self.links().contains_key(((#[trigger] st[s]).node, st[s + 1].node))
    }

    proof fn lemma_stack_walk(&self, st: Seq<Frame>)
        requires
            self.stack_ok(st),
            st.len() > 0,
        ensures
            is_walk(self.links(), true, frame_nodes(st)),
            frame_nodes(st).last() == st.last().node,
    {
        let p = frame_nodes(st);
        assert forall|i: int| 0 <= i < p.len() - 1 implies #[trigger] step(self.links(), true, p[i], p[i + 1]) by {
            assert(self.links().contains_key((st[i].node, st[i + 1].node)));
        }
    }

    proof fn lemma_finish_walk(&self, cm: Map<u128, Color>, fin: Map<u128, nat>, counter: nat, w: Seq<u128>)
        requires
            self.finished_ok(cm, fin, counter),
            is_walk(self.links(), true, w),
            is_black(cm, w[0]),
        ensures
            is_black(cm, w.last()),
            fin[w.last()] <= fin[w[0]],
        decreases w.len(),
    {
        if w.len() > 1 {
            lemma_walk_prefix(self.links(), true, w);
            self.lemma_finish_walk(cm, fin, counter, w.drop_last());
            let a = w.drop_last().last();
            assert(self.links().contains_key((a, w.last())));
        }
    }
}


impl Tree {
    /// The invariant of the search from one start node: coloured nodes are
    /// graph nodes, the grey ones are exactly those on the path, the path is
    /// the stack's nodes without repeats, and, while no cycle has been found,
    /// the finishing order and the frames' progress are as the search needs.
    spec fn dfs_inv(
        &self,
        cm: Map<u128, Color>,
        path: Seq<u128>,
        st: Seq<Frame>,
        fin: Map<u128, nat>,
        counter: nat,
        found: bool,
    ) -> bool {
        &&& forall|u: u128| #[trigger] cm.contains_key(u) ==> self.nodes().contains(u) && (cm[u] == Color::Gray
            <==> path.contains(u))
        &&& forall|u: u128| path.contains(u) ==> #[trigger] cm.contains_key(u)
        &&& cm.dom().finite()
        &&& cm.dom().len() <= self.nodes().len()
        &&& path == frame_nodes(st)
        &&& path.no_duplicates()
        &&& self.stack_ok(st)
        &&& !found ==> self.finished_ok(cm, fin, counter) && frames_ok(cm, st)
    }

    /// Leaving a frame whose parents have all been visited keeps the
    /// invariant.
    #[verifier::spinoff_prover]
    #[verifier::rlimit(100)]
    proof fn lemma_dfs_finish(
        &self,
        cm: Map<u128, Color>,
        path: Seq<u128>,
        st: Seq<Frame>,
        fin: Map<u128, nat>,
        counter: nat,
        found: bool,
    )
        requires
            self.dfs_inv(cm, path, st, fin, counter, found),
            st.len() > 0,
            st.last().next >= st.last().parents@.len(),
        ensures
            self.dfs_inv(
                cm.insert(st.last().node, Color::Black),
                path.drop_last(),
                st.drop_last(),
                fin.insert(st.last().node, counter),
                counter + 1,
                found,
            ),
            cm.insert(st.last().node, Color::Black).dom() == cm.dom(),
            stack_work(st.drop_last()) < stack_work(st),
    {
        let f = st.last();
        let top = st.len() - 1;
        let cm2 = cm.insert(f.node, Color::Black);
        let p2 = path.drop_last();
        let st2 = st.drop_last();
        let fin2 = fin.insert(f.node, counter);
        assert(st[top] == f);
        assert(path[top] == f.node);
        assert(path.contains(f.node));
        assert(cm2.dom() =~= cm.dom());
        assert(p2 =~= frame_nodes(st2));
        assert(!p2.contains(f.node)) by {
            if p2.contains(f.node) {
                let t = choose|t: int| 0 <= t < p2.len() && p2[t] == f.node;
                assert(path[t] == path[top]);
            }
        }
        assert forall|u: u128| #[trigger] cm2.contains_key(u) implies self.nodes().contains(u) && (cm2[u]
            == Color::Gray <==> p2.contains(u)) by {
            if u != f.node {
                if path.contains(u) {
                    let t = choose|t: int| 0 <= t < path.len() && path[t] == u;
                    assert(t < p2.len());
                    assert(p2[t] == u);
                }
                if p2.contains(u) {
                    let t = choose|t: int| 0 <= t < p2.len() && p2[t] == u;
                    assert(path[t] == u);
                }
            }
        }
        assert forall|u: u128| p2.contains(u) implies #[trigger] cm2.contains_key(u) by {
            let t = choose|t: int| 0 <= t < p2.len() && p2[t] == u;
            assert(path[t] == u);
        }
        assert forall|s: int| 0 <= s < st2.len() implies (#[trigger] st2[s]).next <= st2[s].parents@.len()
            && st2[s].parents@.to_set() == self.parents_of(st2[s].node) by {
            assert(st2[s] == st[s]);
        }
        assert forall|s: int| 0 <= s < st2.len() - 1 implies self.links().contains_key(
            ((#[trigger] st2[s]).node, st2[s + 1].node),
        ) by {
            assert(st2[s] == st[s]);
            assert(st2[s + 1] == st[s + 1]);
        }
        assert(st =~= st2.push(f));
        if !found {
            assert forall|u: u128| #[trigger] is_black(cm2, u) implies fin2.contains_key(u) && fin2[u] < counter + 1
                && forall|v: u128| #[trigger] self.links().contains_key((u, v)) ==> is_black(cm2, v) && fin2[v]
                < fin2[u] by {
                if u == f.node {
                    assert forall|v: u128| #[trigger] self.links().contains_key((u, v)) implies is_black(cm2, v)
                        && fin2[v] < fin2[u] by {
                        assert(self.parents_of(f.node).contains(v));
                        assert(f.parents@.to_set().contains(v));
                        let t = choose|t: int| 0 <= t < f.parents@.len() && f.parents@[t] == v;
                        assert(st[top].parents@[t] == v);
                        assert(is_black(cm, v));
                    }
                } else {
                    assert(is_black(cm, u));
                    assert forall|v: u128| #[trigger] self.links().contains_key((u, v)) implies is_black(cm2, v)
                        && fin2[v] < fin2[u] by {
                        assert(is_black(cm, v));
                    }
                }
            }
            assert forall|s: int, t: int|
                0 <= s < st2.len() && 0 <= t < st2[s].next implies is_black(cm2, #[trigger] st2[s].parents@[t]) || (
                s + 1 < st2.len() && t == st2[s].next - 1 && st2[s].parents@[t] == st2[s + 1].node) by {
                assert(st2[s] == st[s]);
                assert(st[s].parents@[t] == st2[s].parents@[t]);
                if s + 1 < st2.len() {
                    assert(st2[s + 1] == st[s + 1]);
                } else if !is_black(cm, st[s].parents@[t]) {
                    assert(st[s + 1] == f);
                }
            }
        }
    }

    proof fn lemma_stack_advance(&self, st: Seq<Frame>, f2: Frame)
        requires
            self.stack_ok(st),
            st.len() > 0,
            st.last().next < st.last().parents@.len(),
            f2.node == st.last().node,
            f2.parents == st.last().parents,
            f2.next == st.last().next + 1,
        ensures
            self.stack_ok(st.drop_last().push(f2)),
            frame_nodes(st.drop_last().push(f2)) == frame_nodes(st),
            stack_work(st.drop_last().push(f2)) < stack_work(st),
    {
        let top = st.len() - 1;
        let st1 = st.drop_last().push(f2);
        assert(st1.drop_last() =~= st.drop_last());
        assert(st =~= st.drop_last().push(st[top]));
        assert(frame_nodes(st1) =~= frame_nodes(st));
        assert forall|s: int| 0 <= s < st1.len() implies (#[trigger] st1[s]).next <= st1[s].parents@.len()
            && st1[s].parents@.to_set() == self.parents_of(st1[s].node) by {
            if s < top {
                assert(st1[s] == st[s]);
            } else {
                assert(st[s].next <= st[s].parents@.len());
            }
        }
        assert forall|s: int| 0 <= s < st1.len() - 1 implies self.links().contains_key(
            ((#[trigger] st1[s]).node, st1[s + 1].node),
        ) by {
            assert(st1[s] == st[s]);
            assert(st1[s + 1].node == st[s + 1].node);
            assert(self.links().contains_key((st[s].node, st[s + 1].node)));
        }
    }

    /// Moving a frame on to its next parent, which is already coloured,
    /// keeps the invariant (with the cycle flag raised when that parent is
    /// grey).
    #[verifier::spinoff_prover]
    proof fn lemma_dfs_advance(
        &self,
        cm: Map<u128, Color>,
        path: Seq<u128>,
        st: Seq<Frame>,
        fin: Map<u128, nat>,
        counter: nat,
        found: bool,
        f2: Frame,
        found2: bool,
    )
        requires
            self.dfs_inv(cm, path, st, fin, counter, found),
            st.len() > 0,
            st.last().next < st.last().parents@.len(),
            f2.node == st.last().node,
            f2.parents == st.last().parents,
            f2.next == st.last().next + 1,
            cm.contains_key(f2.parents@[st.last().next as int]),
            found2 == (found || cm[f2.parents@[st.last().next as int]] == Color::Gray),
        ensures
            self.dfs_inv(cm, path, st.drop_last().push(f2), fin, counter, found2),
            stack_work(st.drop_last().push(f2)) < stack_work(st),
            self.links().contains_key((st.last().node, f2.parents@[st.last().next as int])),
            is_walk(self.links(), true, path),
            path.last() == st.last().node,
    {
        let f = st.last();
        let top = st.len() - 1;
        let st1 = st.drop_last().push(f2);
        let p = f.parents@[f.next as int];
        assert(st[top] == f);
        assert(f.parents@.to_set().contains(p));
        assert(self.parents_of(f.node).contains(p));
        self.lemma_stack_advance(st, f2);
        self.lemma_stack_walk(st);
        if !found2 {
            assert(is_black(cm, p));
            lemma_frames_advance(cm, st, f2);
        }
    }

    /// Descending into a parent not yet coloured keeps the invariant.
    proof fn lemma_dfs_descend(
        &self,
        cm: Map<u128, Color>,
        path: Seq<u128>,
        st: Seq<Frame>,
        fin: Map<u128, nat>,
        counter: nat,
        found: bool,
        f2: Frame,
        g: Frame,
    )
        requires
            self.wf(),
            self.dfs_inv(cm, path, st, fin, counter, found),
            st.len() > 0,
            st.last().next < st.last().parents@.len(),
            f2.node == st.last().node,
            f2.parents == st.last().parents,
            f2.next == st.last().next + 1,
            g.node == f2.parents@[st.last().next as int],
            !cm.contains_key(g.node),
            g.next == 0,
            g.parents@.to_set() == self.parents_of(g.node),
        ensures
            self.dfs_inv(cm.insert(g.node, Color::Gray), path.push(g.node), st.drop_last().push(f2).push(g), fin, counter, found),
            cm.insert(g.node, Color::Gray).dom() == cm.dom().insert(g.node),
            cm.dom().len() < cm.insert(g.node, Color::Gray).dom().len(),
    {
        let f = st.last();
        let top = st.len() - 1;
        let p = g.node;
        let st1 = st.drop_last().push(f2);
        let st2 = st1.push(g);
        let cm2 = cm.insert(p, Color::Gray);
        let p2 = path.push(p);
        assert(st[top] == f);
        assert(st =~= st.drop_last().push(f));
        assert(f.parents@.to_set().contains(p));
        assert(self.links().contains_key((f.node, p)));
        assert(graph_edges(self.graph).contains_key((f.node, p)));
        assert(self.nodes().contains(p));
        assert(cm2.dom() =~= cm.dom().insert(p));
        assert(cm2.dom().subset_of(self.nodes()));
        vstd::set_lib::lemma_len_subset(cm2.dom(), self.nodes());
        assert(!path.contains(p));
        assert(p2 =~= frame_nodes(st2));
        assert forall|a: int, b: int| 0 <= a < p2.len() && 0 <= b < p2.len() && a != b implies p2[a] != p2[b] by {
            if a == p2.len() - 1 {
                assert(path[b] == p2[b]);
            } else if b == p2.len() - 1 {
                assert(path[a] == p2[a]);
            } else {
                assert(path[a] == p2[a] && path[b] == p2[b]);
            }
        }
        assert forall|u: u128| #[trigger] cm2.contains_key(u) implies self.nodes().contains(u) && (cm2[u]
            == Color::Gray <==> p2.contains(u)) by {
            if u != p {
                if path.contains(u) {
                    let t = choose|t: int| 0 <= t < path.len() && path[t] == u;
                    assert(p2[t] == u);
                }
                if p2.contains(u) {
                    let t = choose|t: int| 0 <= t < p2.len() && p2[t] == u;
                    assert(t < path.len());
                    assert(path[t] == u);
                }
            } else {
                assert(p2[p2.len() - 1] == p);
            }
        }
        assert forall|u: u128| p2.contains(u) implies #[trigger] cm2.contains_key(u) by {
            let t = choose|t: int| 0 <= t < p2.len() && p2[t] == u;
            if t < path.len() {
                assert(path[t] == u);
            }
        }
        assert forall|s: int| 0 <= s < st2.len() implies (#[trigger] st2[s]).next <= st2[s].parents@.len()
            && st2[s].parents@.to_set() == self.parents_of(st2[s].node) by {
            if s < top {
                assert(st2[s] == st[s]);
            }
        }
        assert forall|s: int| 0 <= s < st2.len() - 1 implies self.links().contains_key(
            ((#[trigger] st2[s]).node, st2[s + 1].node),
        ) by {
            if s < top {
                assert(st2[s] == st[s]);
                assert(st2[s + 1].node == st[s + 1].node);
            }
        }
        if !found {
            assert forall|u: u128| #[trigger] is_black(cm2, u) implies fin.contains_key(u) && fin[u] < counter
                && forall|v: u128| #[trigger] self.links().contains_key((u, v)) ==> is_black(cm2, v) && fin[v]
                < fin[u] by {
                assert(is_black(cm, u));
                assert forall|v: u128| #[trigger] self.links().contains_key((u, v)) implies is_black(cm2, v)
                    && fin[v] < fin[u] by {
                    assert(is_black(cm, v));
                }
            }
            assert forall|s: int, t: int|
                0 <= s < st2.len() && 0 <= t < st2[s].next implies is_black(cm2, #[trigger] st2[s].parents@[t]) || (
                s + 1 < st2.len() && t == st2[s].next - 1 && st2[s].parents@[t] == st2[s + 1].node) by {
                if s < top {
                    assert(st2[s] == st[s]);
                    assert(st2[s + 1].node == st[s + 1].node);
                    if is_black(cm, st[s].parents@[t]) {
                        assert(is_black(cm2, st[s].parents@[t]));
                    }
                } else if s == top {
                    if t < f.next {
                        assert(st[top].parents@[t] == st2[s].parents@[t]);
                        assert(is_black(cm, st[top].parents@[t]));
                    } else {
                        assert(st2[s + 1] == g);
                    }
                }
            }
        }
    }
}

impl Tree {
    /// Every cycle of the graph, found by an iterative three-colour
    /// depth-first search from each node in turn; each cycle is reported
    /// once, as the HRIDs along it with its start repeated at the end.
    pub fn detect_cycles(&self) -> (r: Vec<Vec<Hrid>>)
        requires
            self.wf(),
        ensures
            self.cycle_list(r@),
            r@.len() == 0 <==> acyclic(self.links()),
    {
        let ns = graph_node_list(&self.graph);
        let mut colors: HashMap<u128, Color> = HashMap::new();
        let mut cycles: Vec<Vec<Hrid>> = Vec::new();
        let ghost mut fin: Map<u128, nat> = Map::empty();
        let ghost mut counter: nat = 0;
        proof {
            assert(colors@ =~= Map::<u128, Color>::empty());
        }
        let mut i: usize = 0;
        while i < ns.len()
            invariant
                self.wf(),
                i <= ns@.len(),
                ns@.to_set() == self.nodes(),
                forall|u: u128| #[trigger] colors@.contains_key(u) ==> self.nodes().contains(u) && colors@[u]
                    == Color::Black,
                forall|t: int| 0 <= t < i ==> colors@.contains_key(#[trigger] ns@[t]),
                self.cycle_list(cycles@),
                cycles@.len() == 0 ==> self.finished_ok(colors@, fin, counter),
            decreases ns@.len() - i,
        {
            let start = ns[i];
            proof {
                assert(ns@.to_set().contains(start));
            }
            if !colors.contains_key(&start) {
                let ghost cm_before = colors@;
                colors.insert(start, Color::Gray);
                let mut path: Vec<u128> = Vec::new();
                path.push(start);
                proof {
                    self.lemma_neighbours(start);
                }
                let first = Frame { node: start, parents: graph_neighbours(&self.graph, start, true), next: 0 };
                let mut stack: Vec<Frame> = Vec::new();
                stack.push(first);
                proof {
                    let cm = colors@;
                    assert(path@ =~= frame_nodes(stack@));
                    assert(cm.dom() =~= cm_before.dom().insert(start));
                    assert(cm.dom().subset_of(self.nodes()));
                    vstd::set_lib::lemma_len_subset(cm.dom(), self.nodes());
                    assert forall|u: u128| #[trigger] cm.contains_key(u) implies self.nodes().contains(u) && (cm[u]
                        == Color::Gray <==> path@.contains(u)) by {
                        if u == start {
                            assert(path@[0] == start);
                        }
                    }
                    if cycles@.len() == 0 {
                        assert forall|u: u128| #[trigger]
                            is_black(cm, u) implies fin.contains_key(u) && fin[u] < counter && forall|v: u128|
                            #[trigger] self.links().contains_key((u, v)) ==> is_black(cm, v) && fin[v] < fin[u] by {
                            assert(is_black(cm_before, u));
                            assert forall|v: u128| #[trigger]
                                self.links().contains_key((u, v)) implies is_black(cm, v) && fin[v] < fin[u] by {
                                assert(is_black(cm_before, v));
                            }
                        }
                    }
                    assert(self.dfs_inv(cm, path@, stack@, fin, counter, cycles@.len() > 0));
                }
                while stack.len() > 0
                    invariant
                        self.wf(),
                        i < ns@.len(),
                        ns@.to_set() == self.nodes(),
                        start == ns@[i as int],
                        colors@.contains_key(start),
                        forall|t: int| 0 <= t < i ==> colors@.contains_key(#[trigger] ns@[t]),
                        self.cycle_list(cycles@),
                        self.dfs_inv(colors@, path@, stack@, fin, counter, cycles@.len() > 0),
                    decreases self.nodes().len() - colors@.dom().len(), stack_work(stack@),
                {
                    let ghost st0 = stack@;
                    let ghost cm0 = colors@;
                    let ghost path0 = path@;
                    let ghost fin0 = fin;
                    let ghost counter0 = counter;
                    let ghost found0 = cycles@.len() > 0;
                    let mut f = stack.pop().unwrap();
                    proof {
                        assert(f == st0.last());
                        assert(stack@ == st0.drop_last());
                        assert(st0[st0.len() - 1] == f);
                        assert(self.stack_ok(st0));
                    }
                    if f.next >= f.parents.len() {
                        colors.insert(f.node, Color::Black);
                        path.pop();
                        proof {
                            self.lemma_dfs_finish(cm0, path0, st0, fin0, counter0, found0);
                            fin = fin0.insert(f.node, counter0);
                            counter = counter0 + 1;
                            assert(path@ == path0.drop_last());
                        }
                    } else {
                        let p = f.parents[f.next];
                        f.next = f.next + 1;
                        stack.push(f);
                        let seen = match colors.get(&p) {
                            Some(c) => Some(*c),
                            None => None,
                        };
                        match seen {
                            Some(c) => {
                                proof {
                                    self.lemma_dfs_advance(
                                        cm0,
                                        path0,
                                        st0,
                                        fin0,
                                        counter0,
                                        found0,
                                        f,
                                        found0 || c == Color::Gray,
                                    );
                                }
                                match c {
                                    Color::Gray => {
                                        proof {
                                            assert(path0.contains(p));
                                        }
                                        self.record_cycle(&path, p, &mut cycles);
                                    },
                                    Color::Black => {},
                                }
                            },
                            None => {
                                colors.insert(p, Color::Gray);
                                path.push(p);
                                proof {
                                    self.lemma_neighbours(p);
                                }
                                let ps = graph_neighbours(&self.graph, p, true);
                                let g = Frame { node: p, parents: ps, next: 0 };
                                proof {
                                    self.lemma_dfs_descend(cm0, path0, st0, fin0, counter0, found0, f, g);
                                }
                                stack.push(g);
                            },
                        }
                    }
                }
                proof {
                    assert forall|u: u128| #[trigger] colors@.contains_key(u) implies self.nodes().contains(u)
                        && colors@[u] == Color::Black by {
                        assert(!path@.contains(u));
                    }
                }
            }
            i = i + 1;
        }
        proof {
            assert forall|k: (u128, u128)| #[trigger] self.links().contains_key(k) implies is_black(colors@, k.0) by {
                assert(graph_edges(self.graph).contains_key(k));
                assert(ns@.to_set().contains(k.0));
                let t = choose|t: int| 0 <= t < ns@.len() && ns@[t] == k.0;
                assert(colors@.contains_key(ns@[t]));
            }
            if cycles@.len() == 0 {
                assert forall|k: (u128, u128)| #[trigger] self.links().contains_key(k) implies !reaches(
                    self.links(),
                    true,
                    k.1,
                    k.0,
                ) by {
                    assert(is_black(colors@, k.0));
                    assert(is_black(colors@, k.1) && fin[k.1] < fin[k.0]);
                    if reaches(self.links(), true, k.1, k.0) {
                        let w = choose|w: Seq<u128>| is_walk(self.links(), true, w) && w[0] == k.1 && w.last() == k.0;
                        self.lemma_finish_walk(colors@, fin, counter, w);
                    }
                }
            } else {
                assert(self.is_cycle_of(hrids_view(cycles@[0]@)));
                let w = choose|w: Seq<u128>|
                    is_walk(self.links(), true, w) && w.len() >= 2 && w[0] == w.last() && hrids_view(cycles@[0]@)
                        == #[trigger] walk_hrids(self.reqs(), w);
                let z: int = 0;
                assert(step(self.links(), true, w[z], w[z + 1]));
                let k = (w[0], w[1]);
                assert(self.links().contains_key(k));
                let q = w.subrange(1, w.len() as int);
                assert forall|a: int| 0 <= a < q.len() - 1 implies #[trigger] step(self.links(), true, q[a], q[a + 1]) by {
                    assert(step(self.links(), true, w[a + 1], w[a + 1 + 1]));
                }
                assert(is_walk(self.links(), true, q) && q[0] == k.1 && q.last() == k.0);
                assert(reaches(self.links(), true, k.1, k.0));
            }
        }
        cycles
    }
}


proof fn lemma_frames_advance(cm: Map<u128, Color>, st: Seq<Frame>, f2: Frame)
    requires
        frames_ok(cm, st),
        st.len() > 0,
        st.last().next < st.last().parents@.len(),
        f2.node == st.last().node,
        f2.parents == st.last().parents,
        f2.next == st.last().next + 1,
        is_black(cm, f2.parents@[st.last().next as int]),
    ensures
        frames_ok(cm, st.drop_last().push(f2)),
{
    let top = st.len() - 1;
    let st1 = st.drop_last().push(f2);
    assert forall|s: int, t: int|
        0 <= s < st1.len() && 0 <= t < st1[s].next implies is_black(cm, #[trigger] st1[s].parents@[t]) || (s + 1
        < st1.len() && t == st1[s].next - 1 && st1[s].parents@[t] == st1[s + 1].node) by {
        if s < top {
            assert(st1[s] == st[s]);
            assert(st1[s + 1].node == st[s + 1].node);
        } else if t < st[top].next {
            assert(st[top].parents@[t] == st1[s].parents@[t]);
        }
    }
}

} // verus!
