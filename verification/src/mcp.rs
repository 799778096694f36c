//! The tools of the requirements server: their parameters and responses,
//! and how each is answered from the store.
//!
//! Transport, locking and JSON encoding are the caller's part; here every
//! tool is a function from the store and its parameters to its response or
//! a [`ToolError`].

use vstd::prelude::*;

use crate::config::{Config, ConfigView, texts, uppercase, description_view, insert_sorted};
use crate::directory::{AcceptResult, AcceptSuspectLinkError, Directory, hrid_set, hrids_of, uuid_of};
use crate::hrid::{Hrid, SpecHrid, spec_display, spec_parse_hrid, ErrorView, error_message};
use crate::summary::{find_first, occurs_from, lemma_first_from_unique};
use crate::sorting::strictly_sorted;
use crate::text::{chars_of, copy_string, push_str, str_eq, string_of, trim, trimmed, string_from_chars, text_lt};
use crate::tree::{RequirementView, Tree, SuspectLink, TreeInsertError, suspect_keys};
use crate::directory::{AddRequirementError, kind_allowed, queued_paths};
use crate::hrid::{valid_hrid, valid_kind, valid_segment};
use crate::requirement::{tags_view, parents_view, uuid_text, uuid_to_string};

verus! {

/// `str::to_lowercase`: the Unicode lower-case mapping of the text.
pub uninterp spec fn lowercase(s: Seq<char>) -> Seq<char>;

/// Lower-cases a string with `str::to_lowercase`.
#[verifier::external_body]
fn to_lowercase(s: &str) -> (r: String)
    ensures
        r@ == lowercase(s@),
{
    s.to_lowercase()
}

// ---------------------------------------------------------------------------
// Errors
// ---------------------------------------------------------------------------

/// The class of a tool error.
#[derive(Debug, Clone, Copy, PartialEq, Eq, Structural)]
pub enum ToolErrorKind {
    /// The parameters are unusable.
    InvalidParams,
    /// A named requirement does not exist.
    ResourceNotFound,
    /// The store could not do what was asked.
    InternalError,
}

/// A value attached to a tool error.
#[derive(Debug, PartialEq, Eq)]
pub enum DetailValue {
    Text(String),
    List(Vec<String>),
}

/// A refused tool call: its class, a message, and named details.
#[derive(Debug)]
pub struct ToolError {
    pub kind: ToolErrorKind,
    pub message: String,
    pub data: Vec<(String, DetailValue)>,
}

/// A tool error with one text detail.
fn tool_error(kind: ToolErrorKind, message: &str, key: &str, value: String) -> (r: ToolError)
    ensures
        r.kind == kind,
        r.message@ == message@,
        r.data@.len() == 1,
        r.data@[0].0@ == key@,
        r.data@[0].1 matches DetailValue::Text(v) && v@ == value@,
{
    let mut data: Vec<(String, DetailValue)> = Vec::new();
    data.push((string_of(key), DetailValue::Text(value)));
    ToolError { kind, message: string_of(message), data }
}

// ---------------------------------------------------------------------------
// Parameters and responses
// ---------------------------------------------------------------------------

/// Parameters of `list_requirements`.
#[derive(Debug)]
pub struct ListRequirementsParams {
    /// Kind filter, e.g. `USR`.
    pub kind: String,
    /// Case-insensitive text searched for in title and body.
    pub query: Option<String>,
}

/// One listed requirement.
#[derive(Debug)]
pub struct RequirementSummary {
    pub hrid: String,
    pub title: String,
}

/// Response of `list_requirements`.
#[derive(Debug)]
pub struct ListRequirementsResponse {
    /// The upper-cased kind filter applied.
    pub kind: String,
    /// The query applied.
    pub query: Option<String>,
    pub results: Vec<RequirementSummary>,
}

/// Response of `list_requirement_kinds`.
#[derive(Debug)]
pub struct ListRequirementKindsResponse {
    pub kinds: Vec<RequirementKind>,
}

/// A requirement kind and its description.
#[derive(Debug)]
pub struct RequirementKind {
    pub kind: String,
    pub description: Option<String>,
}

/// Parameters of `get_requirement`.
#[derive(Debug)]
pub struct GetRequirementParams {
    pub hrid: String,
}

/// A requirement with its direct relations.
#[derive(Debug)]
pub struct RequirementDetails {
    pub hrid: String,
    pub title: String,
    pub body: String,
    pub tags: Vec<String>,
    /// Parent HRIDs as recorded on the links.
    pub parents: Vec<String>,
    /// Child HRIDs.
    pub children: Vec<String>,
}

/// Parameters of `create_requirement_kind`.
#[derive(Debug)]
pub struct CreateRequirementKindParams {
    pub kind: String,
    pub description: Option<String>,
}

/// Response of `create_requirement_kind`.
#[derive(Debug)]
pub struct CreateRequirementKindResponse {
    pub kind: String,
    pub description: Option<String>,
    /// Whether the kind was new.
    pub added: bool,
    pub allowed_kinds: Vec<String>,
}

/// Parameters of `create_requirement`.
#[derive(Debug)]
pub struct CreateRequirementParams {
    pub namespace: Vec<String>,
    pub kind: String,
    pub title: String,
    pub body: String,
    /// HRIDs of the parents to link to.
    pub parents: Vec<String>,
}

/// Parameters of `update_requirement`.
#[derive(Debug)]
pub struct UpdateRequirementParams {
    pub hrid: String,
    pub title: Option<String>,
    pub body: Option<String>,
    pub tags: Option<Vec<String>>,
}

/// Response of `update_requirement`.
#[derive(Debug)]
pub struct UpdateRequirementResponse {
    /// Whether anything changed.
    pub changed: bool,
    pub requirement: RequirementDetails,
}

/// Parameters of `link_requirement`.
#[derive(Debug)]
pub struct LinkRequirementParams {
    pub child: String,
    pub parent: String,
}

/// Response of `link_requirement`.
#[derive(Debug)]
pub struct LinkRequirementResponse {
    pub child: String,
    pub parent: String,
    /// Whether the link existed before.
    pub already_linked: bool,
}

/// Parameters of `unlink_requirement`.
#[derive(Debug)]
pub struct UnlinkRequirementParams {
    pub child: String,
    pub parent: String,
}

/// Response of `unlink_requirement`.
#[derive(Debug)]
pub struct UnlinkRequirementResponse {
    pub child: String,
    pub parent: String,
}

/// How `delete_requirement` treats the children of the requirement.
#[derive(Debug, Clone, Copy, PartialEq, Eq, Structural)]
pub enum DeleteMode {
    /// Refuse when there are children.
    Refuse,
    /// Delete and unlink the children, keeping them.
    Orphan,
    /// Delete together with every descendant left without a parent.
    Cascade,
}

impl Default for DeleteMode {
    fn default() -> (r: Self)
        ensures
            r == DeleteMode::Refuse,
    {
        DeleteMode::Refuse
    }
}

/// Parameters of `delete_requirement`.
#[derive(Debug)]
pub struct DeleteRequirementParams {
    pub hrid: String,
    pub mode: DeleteMode,
    /// Only report what would be deleted.
    pub dry_run: bool,
}

/// Response of `delete_requirement`.
#[derive(Debug)]
pub struct DeleteRequirementResponse {
    pub mode: DeleteMode,
    pub dry_run: bool,
    /// HRIDs deleted (or that would be).
    pub deleted: Vec<String>,
    /// Kept children that lose a parent.
    pub unlinked_children: Vec<String>,
}

/// Parameters of `review_requirement`.
#[derive(Debug)]
pub struct ReviewRequirementParams {
    pub child: String,
    pub parent: String,
}

/// Response of `review_requirement`.
#[derive(Debug)]
pub struct ReviewRequirementResponse {
    pub child: String,
    pub parent: String,
    /// `updated` or `already_up_to_date`.
    pub status: String,
}

/// Parameters of `get_children`.
#[derive(Debug)]
pub struct GetChildrenParams {
    pub hrid: String,
}

/// Response of `get_children`.
#[derive(Debug)]
pub struct GetChildrenResponse {
    pub hrid: String,
    pub children: Vec<String>,
}

/// Response of `get_parents`.
#[derive(Debug)]
pub struct GetParentsResponse {
    pub hrid: String,
    pub parents: Vec<String>,
}

/// Response of `get_ancestors`.
#[derive(Debug)]
pub struct GetAncestorsResponse {
    pub hrid: String,
    pub ancestors: Vec<String>,
}

/// Response of `get_descendants`.
#[derive(Debug)]
pub struct GetDescendantsResponse {
    pub hrid: String,
    pub descendants: Vec<String>,
}

/// Parameters of the lineage tools.
#[derive(Debug)]
pub struct GetLineageParams {
    pub hrid: String,
}

/// Parameters of `search_requirements`.
#[derive(Debug)]
pub struct SearchRequirementsParams {
    pub query: String,
    pub kind: Option<String>,
}

/// Parameters of `review`.
#[derive(Debug)]
pub struct ReviewParams {
    /// Kind that the child or the parent must have.
    pub kind: Option<String>,
}

/// A suspect link as reported by `review`.
#[derive(Debug)]
pub struct SuspectLinkView {
    pub child: String,
    pub parent: String,
    pub stored_fingerprint: String,
    pub current_fingerprint: String,
}

/// Response of `review`.
#[derive(Debug)]
pub struct ReviewResponse {
    pub kind: Option<String>,
    pub suspect_links: Vec<SuspectLinkView>,
}

// ---------------------------------------------------------------------------
// Shared steps
// ---------------------------------------------------------------------------

/// Parses an HRID parameter, refusing it as invalid when it is not one.
pub fn parse_hrid_param(raw: &str) -> (r: Result<Hrid, ToolError>)
    ensures
        match r {
            Ok(h) => spec_parse_hrid(raw@) == Ok::<SpecHrid, ErrorView>(h@),
            Err(e) => spec_parse_hrid(raw@) is Err && e.kind == ToolErrorKind::InvalidParams
                && e.message@ == "invalid HRID provided"@,
        },
{
    match Hrid::parse(raw) {
        Ok(h) => Ok(h),
        Err(e) => {
            let mut data: Vec<(String, DetailValue)> = Vec::new();
            data.push((string_of("hrid"), DetailValue::Text(string_of(raw))));
            data.push((string_of("reason"), DetailValue::Text(e.to_string())));
            Err(ToolError { kind: ToolErrorKind::InvalidParams, message: string_of("invalid HRID provided"), data })
        },
    }
}

/// The rendered HRIDs of a list, in order.
fn display_all(hs: &Vec<Hrid>, digits: usize) -> (r: Vec<String>)
    ensures
        r@.len() == hs@.len(),
        forall|i: int| 0 <= i < r@.len() ==> #[trigger] r@[i]@ == spec_display(hs@[i]@, digits as nat),
{
    let mut r: Vec<String> = Vec::new();
    let mut i: usize = 0;
    while i < hs.len()
        invariant
            i <= hs@.len(),
            r@.len() == i,
            forall|j: int| 0 <= j < i ==> #[trigger] r@[j]@ == spec_display(hs@[j]@, digits as nat),
        decreases hs@.len() - i,
    {
        r.push(hs[i].to_string_with_digits(digits));
        i = i + 1;
    }
    r
}

/// The rendered HRIDs of a list of HRIDs, in its order.
pub open spec fn displayed_list(hs: Seq<Hrid>, digits: nat) -> Seq<Seq<char>> {
    hs.map_values(|h: Hrid| spec_display(h@, digits))
}

/// The rendered HRIDs of a set of HRIDs.
pub open spec fn displayed(hs: Set<SpecHrid>, digits: nat) -> Set<Seq<char>> {
    hs.map(|h: SpecHrid| spec_display(h, digits))
}

proof fn lemma_display_all(hs: Seq<Hrid>, r: Seq<String>, digits: nat)
    requires
        r.len() == hs.len(),
        forall|i: int| 0 <= i < r.len() ==> #[trigger] r[i]@ == spec_display(hs[i]@, digits),
    ensures
        texts(r).to_set() == displayed(hrid_set(hs), digits),
{
    assert forall|t: Seq<char>| texts(r).to_set().contains(t) == displayed(hrid_set(hs), digits).contains(t) by {
        if texts(r).to_set().contains(t) {
            let i = choose|i: int| 0 <= i < texts(r).len() && texts(r)[i] == t;
            assert(hs.map_values(|h: Hrid| h@)[i] == hs[i]@);
            assert(hrid_set(hs).contains(hs[i]@));
        }
        if displayed(hrid_set(hs), digits).contains(t) {
            let h = choose|h: SpecHrid| #[trigger] hrid_set(hs).contains(h) && spec_display(h, digits) == t;
            let hv = hs.map_values(|x: Hrid| x@);
            assert(hv.to_set().contains(h));
            let i = choose|i: int| 0 <= i < hv.len() && #[trigger] hv[i] == h;
            assert(texts(r)[i] == t);
        }
    }
    assert(texts(r).to_set() =~= displayed(hrid_set(hs), digits));
}

/// The details of requirement `u` of tree `t`, HRIDs rendered with
/// `digits` digits: its HRID, title, body and tags, the parent HRIDs
/// recorded on its links, and its children's HRIDs.
pub open spec fn describes_details(t: Tree, u: u128, digits: nat, d: RequirementDetails) -> bool {
    &&& t.reqs().contains_key(u)
    &&& d.hrid@ == spec_display(t.reqs()[u].hrid, digits)
    &&& d.title@ == t.reqs()[u].title
    &&& d.body@ == t.reqs()[u].body
    &&& texts(d.tags@) == t.reqs()[u].tags
    &&& texts(d.parents@).to_set() == t.parents_of(u).map(|p: u128| spec_display(t.links()[(u, p)].hrid, digits))
    &&& texts(d.children@).to_set() == displayed(hrids_of(t, t.children_of(u)), digits)
}

/// The details of a requirement known to the store.
fn details(dir: &Directory, v: &RequirementView, digits: usize) -> (r: RequirementDetails)
    requires
        dir.wf(),
        dir.tree_view().describes(v.uuid, *v),
    ensures
        describes_details(dir.tree_view(), v.uuid, digits as nat, r),
{
    let ghost t = dir.tree_view();
    let ghost u = v.uuid;
    let mut parents: Vec<String> = Vec::new();
    let mut i: usize = 0;
    while i < v.parents.len()
        invariant
            i <= v.parents@.len(),
            parents@.len() == i,
            forall|j: int| 0 <= j < i ==> #[trigger] parents@[j]@ == spec_display(v.parents@[j].1.hrid@, digits as nat),
        decreases v.parents@.len() - i,
    {
        parents.push(v.parents[i].1.hrid.to_string_with_digits(digits));
        i = i + 1;
    }
    proof {
        let pv = parents_view(v.parents@);
        assert(t.lists_parent_links(u, pv));
        assert forall|x: Seq<char>| texts(parents@).to_set().contains(x) == t.parents_of(u).map(
            |p: u128| spec_display(t.links()[(u, p)].hrid, digits as nat),
        ).contains(x) by {
            if texts(parents@).to_set().contains(x) {
                let j = choose|j: int| 0 <= j < texts(parents@).len() && texts(parents@)[j] == x;
                assert(pv[j].0 == v.parents@[j].0);
                assert(t.links()[(u, pv[j].0)] == pv[j].1);
                assert(crate::tree::firsts(pv)[j] == pv[j].0);
                assert(t.parents_of(u).contains(pv[j].0));
            }
            if t.parents_of(u).map(|p: u128| spec_display(t.links()[(u, p)].hrid, digits as nat)).contains(x) {
                let p = choose|p: u128| #[trigger] t.parents_of(u).contains(p) && spec_display(t.links()[(u, p)].hrid, digits as nat) == x;
                assert(crate::tree::firsts(pv).to_set().contains(p));
                let j = choose|j: int| 0 <= j < crate::tree::firsts(pv).len() && crate::tree::firsts(pv)[j] == p;
                assert(pv[j] == (v.parents@[j].0, v.parents@[j].1@));
                assert(t.links()[(u, pv[j].0)] == pv[j].1);
                assert(texts(parents@)[j] == x);
            }
        }
        assert(texts(parents@).to_set() =~= t.parents_of(u).map(|p: u128| spec_display(t.links()[(u, p)].hrid, digits as nat)));
    }
    let hs = dir.hrids_for(&v.children);
    let children = display_all(&hs, digits);
    proof {
        lemma_display_all(hs@, children@, digits as nat);
    }
    let mut tags: Vec<String> = Vec::new();
    let mut k: usize = 0;
    while k < v.tags.len()
        invariant
            k <= v.tags@.len(),
            tags@.len() == k,
            forall|j: int| 0 <= j < k ==> #[trigger] tags@[j]@ == v.tags@[j]@,
        decreases v.tags@.len() - k,
    {
        tags.push(copy_string(&v.tags[k]));
        k = k + 1;
    }
    proof {
        assert(texts(tags@) =~= tags_view(v.tags@));
    }
    RequirementDetails {
        hrid: v.hrid.to_string_with_digits(digits),
        title: copy_string(&v.title),
        body: copy_string(&v.body),
        tags,
        parents,
        children,
    }
}

/// A resource-not-found error naming the HRID parameter.
fn not_found(raw: &str) -> (r: ToolError)
    ensures
        r.kind == ToolErrorKind::ResourceNotFound,
{
    tool_error(ToolErrorKind::ResourceNotFound, "requirement not found", "hrid", string_of(raw))
}

// ---------------------------------------------------------------------------
// Read-only tools
// ---------------------------------------------------------------------------

/// `get_requirement`: the details of the requirement with this HRID.
pub fn get_requirement(dir: &Directory, params: &GetRequirementParams) -> (r: Result<RequirementDetails, ToolError>)
    requires
        dir.wf(),
    ensures
        match r {
            Ok(d) => exists|h: SpecHrid| {
                &&& spec_parse_hrid(params.hrid@) == Ok::<SpecHrid, ErrorView>(h)
                &&& dir.tree_view().has_hrid(h)
                &&& describes_details(dir.tree_view(), uuid_of(dir.tree_view(), h), dir.config_view().digits, d)
            },
            Err(e) => {
                ||| spec_parse_hrid(params.hrid@) is Err && e.kind == ToolErrorKind::InvalidParams
                ||| spec_parse_hrid(params.hrid@) matches Ok(h) && !dir.tree_view().has_hrid(h)
                    && e.kind == ToolErrorKind::ResourceNotFound
            },
        },
{
    let hrid = parse_hrid_param(params.hrid.as_str())?;
    let digits = dir.config().digits();
    proof {
        dir.lemma_tree_wf();
    }
    match dir.tree().find_by_hrid(&hrid) {
        None => Err(not_found(params.hrid.as_str())),
        Some(v) => {
            proof {
                dir.lemma_tree_wf();
                dir.tree_view().lemma_hrid_unique(v.uuid, uuid_of(dir.tree_view(), hrid@));
            }
            Ok(details(dir, &v, digits))
        },
    }
}


/// Every kind the store knows: the allowed kinds, the kinds with
/// metadata, and the kinds of its requirements.
pub open spec fn known_kinds(dir: &Directory) -> Set<Seq<char>> {
    dir.config_view().allowed_kinds.to_set().union(dir.config_view().kind_metadata.dom()).union(req_kinds(dir.tree_view()))
}

/// The kinds of the requirements of a tree.
pub open spec fn req_kinds(t: Tree) -> Set<Seq<char>> {
    Set::new(|k: Seq<char>| exists|u: u128| #[trigger] t.reqs().contains_key(u) && t.reqs()[u].hrid.kind == k)
}

/// The kinds of the requirements at the first `n` positions of `ord`.
pub open spec fn prefix_kinds(t: Tree, ord: Seq<u128>, n: int) -> Set<Seq<char>> {
    Set::new(|k: Seq<char>| exists|j: int| 0 <= j < n && t.reqs()[ord[j]].hrid.kind == k)
}

/// The recorded description of `k`.
pub open spec fn kind_description(c: ConfigView, k: Seq<char>) -> Option<Seq<char>> {
    if c.kind_metadata.contains_key(k) {
        c.kind_metadata[k]
    } else {
        None
    }
}

/// A text option as text.
pub open spec fn opt_view(o: Option<String>) -> Option<Seq<char>> {
    match o {
        Some(s) => Some(s@),
        None => None,
    }
}

/// Adds `k` to a strictly increasing list of distinct strings unless it is
/// there.
fn add_sorted(v: &mut Vec<String>, k: &str)
    requires
        forall|i: int, j: int| 0 <= i < j < old(v)@.len() ==> text_lt(old(v)@[i]@, old(v)@[j]@),
    ensures
        forall|i: int, j: int| 0 <= i < j < final(v)@.len() ==> text_lt(final(v)@[i]@, final(v)@[j]@),
        texts(final(v)@).to_set() == texts(old(v)@).to_set().insert(k@),
{
    let mut i: usize = 0;
    while i < v.len()
        invariant
            i <= v@.len(),
            forall|a: int, b: int| 0 <= a < b < v@.len() ==> text_lt(v@[a]@, v@[b]@),
            forall|j: int| 0 <= j < i ==> v@[j]@ != k@,
        decreases v@.len() - i,
    {
        if str_eq(v[i].as_str(), k) {
            proof {
                assert(texts(v@)[i as int] == k@);
                assert(texts(v@).to_set().insert(k@) =~= texts(v@).to_set());
            }
            return;
        }
        i = i + 1;
    }
    insert_sorted(v, string_of(k));
}

/// `list_requirement_kinds`: every known kind once, in order, with its
/// description.
pub fn list_requirement_kinds(dir: &Directory) -> (r: ListRequirementKindsResponse)
    requires
        dir.wf(),
    ensures
        r.kinds@.map_values(|k: RequirementKind| k.kind@).to_set() == known_kinds(dir),
        forall|i: int, j: int| 0 <= i < j < r.kinds@.len() ==> text_lt(r.kinds@[i].kind@, r.kinds@[j].kind@),
        forall|i: int| 0 <= i < r.kinds@.len() ==> opt_view((#[trigger] r.kinds@[i]).description)
            == kind_description(dir.config_view(), r.kinds@[i].kind@),
{
    let config = dir.config();
    proof {
        dir.lemma_tree_wf();
    }
    let mut kinds: Vec<String> = Vec::new();
    let ak = config.allowed_kinds();
    let mut i: usize = 0;
    while i < ak.len()
        invariant
            i <= ak@.len(),
            forall|a: int, b: int| 0 <= a < b < kinds@.len() ==> text_lt(kinds@[a]@, kinds@[b]@),
            texts(kinds@).to_set() == texts(ak@.take(i as int)).to_set(),
        decreases ak@.len() - i,
    {
        add_sorted(&mut kinds, ak[i].as_str());
        proof {
            assert(texts(ak@.take(i + 1)) =~= texts(ak@.take(i as int)).push(ak@[i as int]@));
            texts(ak@.take(i as int)).lemma_push_to_set_commute(ak@[i as int]@);
        }
        i = i + 1;
    }
    proof {
        assert(ak@.take(i as int) =~= ak@);
        assert(texts(ak@) == config.view().allowed_kinds);
    }
    let meta = config.kind_metadata();
    let ghost me = config.metadata_entries();
    let mut m: usize = 0;
    while m < meta.len()
        invariant
            m <= meta@.len(),
            meta@.map_values(|e: crate::config::KindEntry| (e.kind@, description_view(e.metadata))) == me,
            forall|a: int, b: int| 0 <= a < b < kinds@.len() ==> text_lt(kinds@[a]@, kinds@[b]@),
            texts(kinds@).to_set() == config.view().allowed_kinds.to_set().union(
                Set::new(|k: Seq<char>| exists|j: int| 0 <= j < m && me[j].0 == k),
            ),
        decreases meta@.len() - m,
    {
        add_sorted(&mut kinds, meta[m].kind.as_str());
        proof {
            assert(me[m as int].0 == meta@[m as int].kind@);
            assert(texts(kinds@).to_set() =~= config.view().allowed_kinds.to_set().union(
                Set::new(|k: Seq<char>| exists|j: int| 0 <= j < m + 1 && me[j].0 == k),
            ));
        }
        m = m + 1;
    }
    proof {
        assert(Set::new(|k: Seq<char>| exists|j: int| 0 <= j < m && me[j].0 == k) =~= config.view().kind_metadata.dom());
    }
    let views = dir.tree().iter();
    let ghost t = dir.tree_view();
    let ghost ord = t.order();
    let mut v: usize = 0;
    while v < views.len()
        invariant
            v <= views@.len(),
            views@.len() == ord.len(),
            forall|j: int| 0 <= j < views@.len() ==> t.describes(ord[j], #[trigger] views@[j]),
            forall|a: int, b: int| 0 <= a < b < kinds@.len() ==> text_lt(kinds@[a]@, kinds@[b]@),
            texts(kinds@).to_set() == config.view().allowed_kinds.to_set().union(config.view().kind_metadata.dom()).union(
                prefix_kinds(t, ord, v as int),
            ),
        decreases views@.len() - v,
    {
        add_sorted(&mut kinds, views[v].hrid.kind());
        proof {
            assert(t.describes(ord[v as int], views@[v as int]));
            assert(prefix_kinds(t, ord, v + 1) =~= prefix_kinds(t, ord, v as int).insert(t.reqs()[ord[v as int]].hrid.kind));
            assert(texts(kinds@).to_set() =~= config.view().allowed_kinds.to_set().union(config.view().kind_metadata.dom()).union(
                prefix_kinds(t, ord, v + 1),
            ));
        }
        v = v + 1;
    }
    proof {
        assert forall|k: Seq<char>| #[trigger] prefix_kinds(t, ord, v as int).contains(k) == req_kinds(t).contains(k) by {
            if prefix_kinds(t, ord, v as int).contains(k) {
                let j = choose|j: int| 0 <= j < v && t.reqs()[ord[j]].hrid.kind == k;
                assert(ord.to_set().contains(ord[j]));
                assert(t.reqs().contains_key(ord[j]));
            }
            if req_kinds(t).contains(k) {
                let u = choose|u: u128| #[trigger] t.reqs().contains_key(u) && t.reqs()[u].hrid.kind == k;
                assert(ord.to_set().contains(u));
                let j = choose|j: int| 0 <= j < ord.len() && ord[j] == u;
                assert(t.reqs()[ord[j]].hrid.kind == k);
            }
        }
        assert(prefix_kinds(t, ord, v as int) =~= req_kinds(t));
        assert(texts(kinds@).to_set() =~= known_kinds(dir));
    }
    let mut out: Vec<RequirementKind> = Vec::new();
    let mut k: usize = 0;
    while k < kinds.len()
        invariant
            k <= kinds@.len(),
            out@.len() == k,
            forall|j: int| 0 <= j < k ==> #[trigger] out@[j].kind@ == kinds@[j]@,
            forall|j: int| 0 <= j < k ==> opt_view((#[trigger] out@[j]).description) == kind_description(config.view(), out@[j].kind@),
            config.wf(),
            config.view() == dir.config_view(),
        decreases kinds@.len() - k,
    {
        let description = match config.metadata_for_kind(kinds[k].as_str()) {
            Some(md) => match &md.description {
                Some(d) => Some(copy_string(d)),
                None => None,
            },
            None => None,
        };
        out.push(RequirementKind { kind: copy_string(&kinds[k]), description });
        k = k + 1;
    }
    proof {
        assert(out@.map_values(|k: RequirementKind| k.kind@) =~= texts(kinds@));
    }
    ListRequirementKindsResponse { kinds: out }
}

/// The lower-cased query, if any.
pub open spec fn query_text(q: Option<String>) -> Option<Seq<char>> {
    match q {
        Some(s) => Some(lowercase(s@)),
        None => None,
    }
}

/// `p` occurs in `s`.
pub open spec fn contains_text(s: Seq<char>, p: Seq<char>) -> bool {
    occurs_from(s, p, 0)
}

/// A requirement matches a listing: its kind is `kind`, and the lower-cased
/// query, if any, occurs in its lower-cased title or body.
pub open spec fn listed(r: crate::tree::ReqSpec, kind: Seq<char>, query: Option<Seq<char>>) -> bool {
    &&& r.hrid.kind == kind
    &&& match query {
        None => true,
        Some(q) => contains_text(lowercase(r.title), q) || contains_text(lowercase(r.body), q),
    }
}

/// The listed requirements among `ord`, in order: HRID and title.
pub open spec fn listing(t: Tree, ord: Seq<u128>, kind: Seq<char>, query: Option<Seq<char>>, digits: nat) -> Seq<
    (Seq<char>, Seq<char>),
>
    decreases ord.len(),
{
    if ord.len() == 0 {
        Seq::empty()
    } else {
        let rest = listing(t, ord.drop_last(), kind, query, digits);
        let r = t.reqs()[ord.last()];
        if listed(r, kind, query) {
            rest.push((spec_display(r.hrid, digits), r.title))
        } else {
            rest
        }
    }
}

/// A requirement of the asked kind is listed, with its shown HRID and its
/// title, when the (lower-cased) query is a run of its lower-cased body,
/// whatever its title.
pub proof fn law_listing_searches_body(
    t: Tree,
    ord: Seq<u128>,
    kind: Seq<char>,
    q: Seq<char>,
    digits: nat,
    j: int,
    i: int,
)
    requires
        0 <= j < ord.len(),
        t.reqs()[ord[j]].hrid.kind == kind,
        0 <= i,
        i + q.len() <= lowercase(t.reqs()[ord[j]].body).len(),
        lowercase(t.reqs()[ord[j]].body).subrange(i, i + q.len()) == q,
    ensures
        listing(t, ord, kind, Some(q), digits).contains(
            (spec_display(t.reqs()[ord[j]].hrid, digits), t.reqs()[ord[j]].title),
        ),
    decreases ord.len(),
{
    let r = t.reqs()[ord[j]];
    assert(crate::summary::occurs_at(lowercase(r.body), q, i));
    assert(listed(r, kind, Some(q)));
    let rest = listing(t, ord.drop_last(), kind, Some(q), digits);
    if j == ord.len() - 1 {
        assert(listing(t, ord, kind, Some(q), digits) == rest.push((spec_display(r.hrid, digits), r.title)));
        assert(listing(t, ord, kind, Some(q), digits)[rest.len() as int] == (spec_display(r.hrid, digits), r.title));
    } else {
        assert(ord.drop_last()[j] == ord[j]);
        law_listing_searches_body(t, ord.drop_last(), kind, q, digits, j, i);
        let k = choose|k: int| 0 <= k < rest.len() && rest[k] == (spec_display(r.hrid, digits), r.title);
        let whole = listing(t, ord, kind, Some(q), digits);
        if listed(t.reqs()[ord.last()], kind, Some(q)) {
            assert(whole[k] == rest[k]);
        } else {
            assert(whole[k] == rest[k]);
        }
    }
}

/// Likewise for the title: a requirement of the asked kind whose
/// lower-cased title holds the query is listed.
pub proof fn law_listing_searches_title(
    t: Tree,
    ord: Seq<u128>,
    kind: Seq<char>,
    q: Seq<char>,
    digits: nat,
    j: int,
    i: int,
)
    requires
        0 <= j < ord.len(),
        t.reqs()[ord[j]].hrid.kind == kind,
        0 <= i,
        i + q.len() <= lowercase(t.reqs()[ord[j]].title).len(),
        lowercase(t.reqs()[ord[j]].title).subrange(i, i + q.len()) == q,
    ensures
        listing(t, ord, kind, Some(q), digits).contains(
            (spec_display(t.reqs()[ord[j]].hrid, digits), t.reqs()[ord[j]].title),
        ),
    decreases ord.len(),
{
    let r = t.reqs()[ord[j]];
    assert(crate::summary::occurs_at(lowercase(r.title), q, i));
    assert(listed(r, kind, Some(q)));
    let rest = listing(t, ord.drop_last(), kind, Some(q), digits);
    if j == ord.len() - 1 {
        assert(listing(t, ord, kind, Some(q), digits)[rest.len() as int] == (spec_display(r.hrid, digits), r.title));
    } else {
        assert(ord.drop_last()[j] == ord[j]);
        law_listing_searches_title(t, ord.drop_last(), kind, q, digits, j, i);
        let k = choose|k: int| 0 <= k < rest.len() && rest[k] == (spec_display(r.hrid, digits), r.title);
        let whole = listing(t, ord, kind, Some(q), digits);
        assert(whole[k] == rest[k]);
    }
}

/// `p` is a run of consecutive characters of `s`.
pub open spec fn has_run(s: Seq<char>, p: Seq<char>) -> bool {
    exists|i: int| 0 <= i && i + p.len() <= s.len() && #[trigger] s.subrange(i, i + p.len()) == p
}

/// Everything listed is a requirement of the asked kind, shown by its HRID
/// and title, whose lower-cased title or body holds the query.
pub proof fn law_listing_only_matches(t: Tree, ord: Seq<u128>, kind: Seq<char>, q: Seq<char>, digits: nat, k: int)
    requires
        0 <= k < listing(t, ord, kind, Some(q), digits).len(),
    ensures
        exists|j: int|
            0 <= j < ord.len() && {
                let r = #[trigger] t.reqs()[ord[j]];
                &&& listing(t, ord, kind, Some(q), digits)[k] == (spec_display(r.hrid, digits), r.title)
                &&& r.hrid.kind == kind
                &&& has_run(lowercase(r.title), q) || has_run(lowercase(r.body), q)
            },
    decreases ord.len(),
{
    let rest = listing(t, ord.drop_last(), kind, Some(q), digits);
    let r = t.reqs()[ord.last()];
    if k < rest.len() {
        law_listing_only_matches(t, ord.drop_last(), kind, q, digits, k);
        let j = choose|j: int|
            0 <= j < ord.drop_last().len() && {
                let r = #[trigger] t.reqs()[ord.drop_last()[j]];
                &&& rest[k] == (spec_display(r.hrid, digits), r.title)
                &&& r.hrid.kind == kind
                &&& has_run(lowercase(r.title), q) || has_run(lowercase(r.body), q)
            };
        assert(ord.drop_last()[j] == ord[j]);
        assert(listing(t, ord, kind, Some(q), digits)[k] == rest[k]);
    } else {
        let j = ord.len() - 1;
        assert(listed(r, kind, Some(q)));
        if contains_text(lowercase(r.title), q) {
            let i = choose|i: int| 0 <= i && #[trigger] crate::summary::occurs_at(lowercase(r.title), q, i);
            assert(lowercase(r.title).subrange(i, i + q.len()) == q);
        } else {
            let i = choose|i: int| 0 <= i && #[trigger] crate::summary::occurs_at(lowercase(r.body), q, i);
            assert(lowercase(r.body).subrange(i, i + q.len()) == q);
        }
        assert(t.reqs()[ord[j]] == r);
    }
}

/// Whether `p` occurs in `s`.
fn text_contains(s: &str, p: &str) -> (r: bool)
    ensures
        r == contains_text(s@, p@),
{
    let sv = chars_of(s);
    let pv = chars_of(p);
    match find_first(sv.as_slice(), pv.as_slice()) {
        Some(i) => {
            proof {
                lemma_first_from_unique(sv@, pv@, 0, i as int);
            }
            true
        },
        None => false,
    }
}

/// `list_requirements`: the requirements of a kind, in storage order,
/// optionally those whose title or body contains a text (ignoring case).
pub fn list_requirements(dir: &Directory, params: &ListRequirementsParams) -> (r: Result<ListRequirementsResponse, ToolError>)
    requires
        dir.wf(),
    ensures
        r is Err <==> trim(params.kind@).len() == 0,
        r matches Err(e) ==> e.kind == ToolErrorKind::InvalidParams,
        r matches Ok(resp) ==> {
            let q = query_text(params.query);
            &&& resp.kind@ == uppercase(params.kind@)
            &&& opt_view(resp.query) == opt_view(params.query)
            &&& resp.results@.map_values(|s: RequirementSummary| (s.hrid@, s.title@)) == listing(
                dir.tree_view(),
                dir.tree_view().order(),
                uppercase(params.kind@),
                q,
                dir.config_view().digits,
            )
        },
{
    if trimmed(chars_of(params.kind.as_str()).as_slice()).len() == 0 {
        return Err(tool_error(ToolErrorKind::InvalidParams, "`kind` is required", "field", string_of("kind")));
    }
    let filter_kind = crate::config::to_uppercase(params.kind.as_str());
    let query = match &params.query {
        Some(q) => Some(to_lowercase(q.as_str())),
        None => None,
    };
    let ghost qv = query_text(params.query);
    let digits = dir.config().digits();
    proof {
        dir.lemma_tree_wf();
    }
    let views = dir.tree().iter();
    let ghost t = dir.tree_view();
    let ghost ord = t.order();
    let mut results: Vec<RequirementSummary> = Vec::new();
    let mut i: usize = 0;
    while i < views.len()
        invariant
            i <= views@.len(),
            views@.len() == ord.len(),
            forall|j: int| 0 <= j < views@.len() ==> t.describes(ord[j], #[trigger] views@[j]),
            match query {
                Some(s) => qv == Some(s@),
                None => qv is None,
            },
            results@.map_values(|s: RequirementSummary| (s.hrid@, s.title@)) == listing(t, ord.take(i as int), filter_kind@, qv, digits as nat),
        decreases views@.len() - i,
    {
        let v = &views[i];
        proof {
            assert(t.describes(ord[i as int], views@[i as int]));
            assert(ord.take(i + 1).drop_last() =~= ord.take(i as int));
            assert(ord.take(i + 1).last() == ord[i as int]);
        }
        let selected = if str_eq(v.hrid.kind(), filter_kind.as_str()) {
            match &query {
                None => true,
                Some(q) => {
                    let lt = to_lowercase(v.title.as_str());
                    let lb = to_lowercase(v.body.as_str());
                    text_contains(lt.as_str(), q.as_str()) || text_contains(lb.as_str(), q.as_str())
                },
            }
        } else {
            false
        };
        let ghost before = results@.map_values(|s: RequirementSummary| (s.hrid@, s.title@));
        if selected {
            results.push(RequirementSummary { hrid: v.hrid.to_string_with_digits(digits), title: copy_string(&v.title) });
            proof {
                assert(results@.map_values(|s: RequirementSummary| (s.hrid@, s.title@)) =~= before.push(
                    (spec_display(t.reqs()[ord[i as int]].hrid, digits as nat), t.reqs()[ord[i as int]].title),
                ));
            }
        }
        i = i + 1;
    }
    proof {
        assert(ord.take(i as int) =~= ord);
    }
    let q_out = match &params.query {
        Some(q) => Some(copy_string(q)),
        None => None,
    };
    Ok(ListRequirementsResponse { kind: filter_kind, query: q_out, results })
}

/// Looks up the requirement named by an HRID parameter.
fn lookup(dir: &Directory, raw: &str) -> (r: Result<(Hrid, RequirementView), ToolError>)
    requires
        dir.wf(),
    ensures
        match r {
            Ok((h, v)) => spec_parse_hrid(raw@) == Ok::<SpecHrid, ErrorView>(h@) && dir.tree_view().has_hrid(h@)
                && v.uuid == uuid_of(dir.tree_view(), h@) && dir.tree_view().describes(v.uuid, v),
            Err(e) => {
                ||| spec_parse_hrid(raw@) is Err && e.kind == ToolErrorKind::InvalidParams
                ||| spec_parse_hrid(raw@) matches Ok(h) && !dir.tree_view().has_hrid(h)
                    && e.kind == ToolErrorKind::ResourceNotFound
            },
        },
{
    let hrid = parse_hrid_param(raw)?;
    proof {
        dir.lemma_tree_wf();
    }
    match dir.tree().find_by_hrid(&hrid) {
        None => Err(not_found(raw)),
        Some(v) => {
            proof {
                dir.tree_view().lemma_hrid_unique(v.uuid, uuid_of(dir.tree_view(), hrid@));
            }
            Ok((hrid, v))
        },
    }
}

/// The outcome of a lineage tool for the HRID parameter `raw`: refused as
/// invalid or unknown exactly when the HRID is, and otherwise naming the
/// requirement `h` with the rendered HRIDs `related`.
pub open spec fn lineage_answer(
    dir: &Directory,
    raw: Seq<char>,
    r: Result<(Seq<char>, Set<Seq<char>>), ToolErrorKind>,
    related: spec_fn(u128) -> Set<u128>,
) -> bool {
    match r {
        Ok((h, rel)) => exists|hv: SpecHrid| {
            &&& spec_parse_hrid(raw) == Ok::<SpecHrid, ErrorView>(hv)
            &&& dir.tree_view().has_hrid(hv)
            &&& h == spec_display(hv, dir.config_view().digits)
            &&& rel == displayed(hrids_of(dir.tree_view(), related(uuid_of(dir.tree_view(), hv))), dir.config_view().digits)
        },
        Err(k) => {
            ||| spec_parse_hrid(raw) is Err && k == ToolErrorKind::InvalidParams
            ||| spec_parse_hrid(raw) matches Ok(hv) && !dir.tree_view().has_hrid(hv) && k == ToolErrorKind::ResourceNotFound
        },
    }
}

/// `get_children`: the HRIDs of the direct children.
pub fn get_children(dir: &Directory, params: &GetChildrenParams) -> (r: Result<GetChildrenResponse, ToolError>)
    requires
        dir.wf(),
    ensures
        lineage_answer(
            dir,
            params.hrid@,
            match r {
                Ok(resp) => Ok((resp.hrid@, texts(resp.children@).to_set())),
                Err(e) => Err(e.kind),
            },
            |u: u128| dir.tree_view().children_of(u),
        ),
{
    let (hrid, _) = lookup(dir, params.hrid.as_str())?;
    let digits = dir.config().digits();
    let hs = dir.children_of(&hrid);
    let children = display_all(&hs, digits);
    proof {
        lemma_display_all(hs@, children@, digits as nat);
    }
    Ok(GetChildrenResponse { hrid: hrid.to_string_with_digits(digits), children })
}

/// `get_ancestors`: the HRIDs of the transitive parents.
pub fn get_ancestors(dir: &Directory, params: &GetLineageParams) -> (r: Result<GetAncestorsResponse, ToolError>)
    requires
        dir.wf(),
    ensures
        lineage_answer(
            dir,
            params.hrid@,
            match r {
                Ok(resp) => Ok((resp.hrid@, texts(resp.ancestors@).to_set())),
                Err(e) => Err(e.kind),
            },
            |u: u128| dir.tree_view().ancestors(u),
        ),
        r matches Ok(resp) ==> exists|hs: Seq<Hrid>|
            strictly_sorted(hs) && #[trigger] displayed_list(hs, dir.config_view().digits) == texts(resp.ancestors@),
{
    let (hrid, _) = lookup(dir, params.hrid.as_str())?;
    let digits = dir.config().digits();
    let hs = dir.ancestors_of(&hrid);
    let ancestors = display_all(&hs, digits);
    proof {
        lemma_display_all(hs@, ancestors@, digits as nat);
        assert(displayed_list(hs@, digits as nat) =~= texts(ancestors@));
    }
    Ok(GetAncestorsResponse { hrid: hrid.to_string_with_digits(digits), ancestors })
}

/// `get_descendants`: the HRIDs of the transitive children.
pub fn get_descendants(dir: &Directory, params: &GetLineageParams) -> (r: Result<GetDescendantsResponse, ToolError>)
    requires
        dir.wf(),
    ensures
        lineage_answer(
            dir,
            params.hrid@,
            match r {
                Ok(resp) => Ok((resp.hrid@, texts(resp.descendants@).to_set())),
                Err(e) => Err(e.kind),
            },
            |u: u128| dir.tree_view().descendants(u),
        ),
        r matches Ok(resp) ==> exists|hs: Seq<Hrid>|
            strictly_sorted(hs) && #[trigger] displayed_list(hs, dir.config_view().digits) == texts(resp.descendants@),
{
    let (hrid, _) = lookup(dir, params.hrid.as_str())?;
    let digits = dir.config().digits();
    let hs = dir.descendants_of(&hrid);
    let descendants = display_all(&hs, digits);
    proof {
        lemma_display_all(hs@, descendants@, digits as nat);
        assert(displayed_list(hs@, digits as nat) =~= texts(descendants@));
    }
    Ok(GetDescendantsResponse { hrid: hrid.to_string_with_digits(digits), descendants })
}

/// `get_parents`: the parent HRIDs recorded on the requirement's links.
pub fn get_parents(dir: &Directory, params: &GetLineageParams) -> (r: Result<GetParentsResponse, ToolError>)
    requires
        dir.wf(),
    ensures
        match r {
            Ok(resp) => exists|d: RequirementDetails, hv: SpecHrid| {
                &&& spec_parse_hrid(params.hrid@) == Ok::<SpecHrid, ErrorView>(hv)
                &&& dir.tree_view().has_hrid(hv)
                &&& #[trigger] describes_details(dir.tree_view(), uuid_of(dir.tree_view(), hv), dir.config_view().digits, d)
                &&& resp.hrid@ == d.hrid@
                &&& texts(resp.parents@) == texts(d.parents@)
            },
            Err(e) => {
                ||| spec_parse_hrid(params.hrid@) is Err && e.kind == ToolErrorKind::InvalidParams
                ||| spec_parse_hrid(params.hrid@) matches Ok(h) && !dir.tree_view().has_hrid(h)
                    && e.kind == ToolErrorKind::ResourceNotFound
            },
        },
{
    let (_, v) = lookup(dir, params.hrid.as_str())?;
    let digits = dir.config().digits();
    let d = details(dir, &v, digits);
    let resp = GetParentsResponse { hrid: copy_string(&d.hrid), parents: copy_strings_vec(&d.parents) };
    Ok(resp)
}

/// Copies a list of strings.
fn copy_strings_vec(v: &Vec<String>) -> (r: Vec<String>)
    ensures
        texts(r@) == texts(v@),
{
    let mut r: Vec<String> = Vec::new();
    let mut i: usize = 0;
    while i < v.len()
        invariant
            i <= v@.len(),
            r@.len() == i,
            forall|j: int| 0 <= j < i ==> #[trigger] r@[j]@ == v@[j]@,
        decreases v@.len() - i,
    {
        r.push(copy_string(&v[i]));
        i = i + 1;
    }
    assert(texts(r@) =~= texts(v@));
    r
}


// ---------------------------------------------------------------------------
// Reviews
// ---------------------------------------------------------------------------

/// What `review` reports of suspect link `k`: child and parent HRID, the
/// recorded and the current parent fingerprint.
pub open spec fn review_item(t: Tree, k: (u128, u128), digits: nat) -> (Seq<char>, Seq<char>, Seq<char>, Seq<char>) {
    (
        spec_display(t.reqs()[k.0].hrid, digits),
        spec_display(t.links()[k].hrid, digits),
        t.links()[k].fingerprint,
        t.current_fingerprint(k.1),
    )
}

/// Link `k` passes the kind filter: none, or the child's or the recorded
/// parent's kind is it.
pub open spec fn passes_kind(t: Tree, k: (u128, u128), kind: Option<Seq<char>>) -> bool {
    match kind {
        None => true,
        Some(f) => t.reqs()[k.0].hrid.kind == f || t.links()[k].hrid.kind == f,
    }
}

/// The reports of the suspect links that pass the filter.
pub open spec fn review_items(t: Tree, kind: Option<Seq<char>>, digits: nat) -> Set<(Seq<char>, Seq<char>, Seq<char>, Seq<char>)> {
    Set::new(|x: (Seq<char>, Seq<char>, Seq<char>, Seq<char>)| exists|k: (u128, u128)|
        #[trigger] t.is_suspect(k) && passes_kind(t, k, kind) && x == review_item(t, k, digits))
}

/// A reported link as text.
pub open spec fn link_view_text(v: SuspectLinkView) -> (Seq<char>, Seq<char>, Seq<char>, Seq<char>) {
    (v.child@, v.parent@, v.stored_fingerprint@, v.current_fingerprint@)
}

/// The trimmed, upper-cased kind filter.
pub open spec fn kind_filter(k: Option<String>) -> Option<Seq<char>> {
    match k {
        Some(s) => Some(uppercase(trim(s@))),
        None => None,
    }
}

/// The review's kind filter matches either end of a link: every suspect
/// link whose recorded parent, or whose child, has the filtered kind is
/// reported, whatever the kind of the other end.
pub proof fn law_review_kind_matches_either_end(t: Tree, k: (u128, u128), f: Seq<char>, digits: nat)
    requires
        t.is_suspect(k),
        t.links()[k].hrid.kind == f || t.reqs()[k.0].hrid.kind == f,
    ensures
        review_items(t, Some(f), digits).contains(review_item(t, k, digits)),
{
    assert(passes_kind(t, k, Some(f)));
}

/// And only those: every report under a kind filter is that of a suspect
/// link whose child or recorded parent has the kind.
pub proof fn law_review_reports_only_kind_matches(t: Tree, f: Seq<char>, digits: nat, x: (Seq<char>, Seq<char>, Seq<char>, Seq<char>))
    requires
        review_items(t, Some(f), digits).contains(x),
    ensures
        exists|k: (u128, u128)|
            #[trigger] t.is_suspect(k) && x == review_item(t, k, digits) && (t.links()[k].hrid.kind == f
                || t.reqs()[k.0].hrid.kind == f),
{
    let k = choose|k: (u128, u128)| #[trigger] t.is_suspect(k) && passes_kind(t, k, Some(f)) && x == review_item(t, k, digits);
    assert(t.is_suspect(k));
}

/// `review`: the suspect links, optionally those whose child or recorded
/// parent has a kind.
pub fn review(dir: &Directory, params: &ReviewParams) -> (r: ReviewResponse)
    requires
        dir.wf(),
    ensures
        opt_view(r.kind) == kind_filter(params.kind),
        r.suspect_links@.map_values(|v: SuspectLinkView| link_view_text(v)).to_set() == review_items(
            dir.tree_view(),
            kind_filter(params.kind),
            dir.config_view().digits,
        ),
{
    let filter = match &params.kind {
        Some(k) => {
            let t = string_from_chars(trimmed(chars_of(k.as_str()).as_slice()).as_slice());
            Some(crate::config::to_uppercase(t.as_str()))
        },
        None => None,
    };
    let digits = dir.config().digits();
    let links = dir.suspect_links();
    let ghost t = dir.tree_view();
    let ghost fv = kind_filter(params.kind);
    let mut out: Vec<SuspectLinkView> = Vec::new();
    let mut i: usize = 0;
    while i < links.len()
        invariant
            i <= links@.len(),
            opt_view(filter) == fv,
            forall|k: (u128, u128)| #[trigger] suspect_keys(links@).contains(k) <==> t.is_suspect(k),
            forall|j: int| 0 <= j < links@.len() ==> t.reports(#[trigger] links@[j]),
            out@.map_values(|v: SuspectLinkView| link_view_text(v)).to_set() == Set::new(
                |x: (Seq<char>, Seq<char>, Seq<char>, Seq<char>)| exists|j: int|
                    0 <= j < i && passes_kind(t, #[trigger] suspect_keys(links@)[j], fv)
                        && x == review_item(t, suspect_keys(links@)[j], digits as nat),
            ),
        decreases links@.len() - i,
    {
        let l = &links[i];
        let ghost k = suspect_keys(links@)[i as int];
        proof {
            assert(t.reports(links@[i as int]));
            assert(k == crate::tree::suspect_key(links@[i as int]));
        }
        let pass = match &filter {
            None => true,
            Some(f) => str_eq(l.child_hrid.kind(), f.as_str()) || str_eq(l.parent_hrid.kind(), f.as_str()),
        };
        let ghost before = out@.map_values(|v: SuspectLinkView| link_view_text(v));
        if pass {
            out.push(SuspectLinkView {
                child: l.child_hrid.to_string_with_digits(digits),
                parent: l.parent_hrid.to_string_with_digits(digits),
                stored_fingerprint: copy_string(&l.stored_fingerprint),
                current_fingerprint: copy_string(&l.current_fingerprint),
            });
            proof {
                assert(out@.map_values(|v: SuspectLinkView| link_view_text(v)) =~= before.push(review_item(t, k, digits as nat)));
                before.lemma_push_to_set_commute(review_item(t, k, digits as nat));
            }
        }
        proof {
            assert(out@.map_values(|v: SuspectLinkView| link_view_text(v)).to_set() =~= Set::new(
                |x: (Seq<char>, Seq<char>, Seq<char>, Seq<char>)| exists|j: int|
                    0 <= j < i + 1 && passes_kind(t, #[trigger] suspect_keys(links@)[j], fv)
                        && x == review_item(t, suspect_keys(links@)[j], digits as nat),
            ));
        }
        i = i + 1;
    }
    proof {
        let sk = suspect_keys(links@);
        assert forall|x: (Seq<char>, Seq<char>, Seq<char>, Seq<char>)|
            #[trigger] review_items(t, fv, digits as nat).contains(x) == out@.map_values(|v: SuspectLinkView| link_view_text(v)).to_set().contains(x) by {
            if review_items(t, fv, digits as nat).contains(x) {
                let k = choose|k: (u128, u128)| #[trigger] t.is_suspect(k) && passes_kind(t, k, fv) && x == review_item(t, k, digits as nat);
                assert(sk.contains(k));
                let j = choose|j: int| 0 <= j < sk.len() && sk[j] == k;
                assert(passes_kind(t, sk[j], fv));
            }
            if out@.map_values(|v: SuspectLinkView| link_view_text(v)).to_set().contains(x) {
                let j = choose|j: int| 0 <= j < i && passes_kind(t, #[trigger] sk[j], fv) && x == review_item(t, sk[j], digits as nat);
                assert(sk.contains(sk[j]));
                assert(t.is_suspect(sk[j]));
            }
        }
        assert(review_items(t, fv, digits as nat) =~= out@.map_values(|v: SuspectLinkView| link_view_text(v)).to_set());
    }
    ReviewResponse { kind: filter, suspect_links: out }
}

/// `review_requirement`: accepts the suspect link from `child` to
/// `parent` (see [`Directory::accept_suspect_link`]).
pub fn review_requirement(dir: &mut Directory, params: &ReviewRequirementParams) -> (r: Result<ReviewRequirementResponse, ToolError>)
    requires
        old(dir).wf(),
    ensures
        final(dir).wf(),
        match r {
            Ok(resp) => {
                let t = old(dir).tree_view();
                let c = spec_parse_hrid(params.child@)->Ok_0;
                let p = spec_parse_hrid(params.parent@)->Ok_0;
                let k = (uuid_of(t, c), uuid_of(t, p));
                &&& spec_parse_hrid(params.child@) is Ok
                &&& spec_parse_hrid(params.parent@) is Ok
                &&& t.has_hrid(c)
                &&& t.has_hrid(p)
                &&& t.links().contains_key(k)
                &&& resp.child@ == spec_display(c, old(dir).config_view().digits)
                &&& resp.parent@ == spec_display(p, old(dir).config_view().digits)
                &&& resp.status@ == if t.is_suspect(k) { "updated"@ } else { "already_up_to_date"@ }
                &&& !final(dir).tree_view().is_suspect(k)
                &&& final(dir).tree_view().reqs() == t.reqs()
            },
            Err(e) => {
                let t = old(dir).tree_view();
                let pc = spec_parse_hrid(params.child@);
                let pp = spec_parse_hrid(params.parent@);
                &&& Directory::same_state(final(dir), old(dir))
                &&& {
                    ||| (pc is Err || pp is Err) && e.kind == ToolErrorKind::InvalidParams
                    ||| pc is Ok && pp is Ok && !(t.has_hrid(pc->Ok_0) && t.has_hrid(pp->Ok_0))
                        && e.kind == ToolErrorKind::ResourceNotFound
                    ||| pc is Ok && pp is Ok && t.has_hrid(pc->Ok_0) && t.has_hrid(pp->Ok_0)
                        && !t.links().contains_key((uuid_of(t, pc->Ok_0), uuid_of(t, pp->Ok_0)))
                        && e.kind == ToolErrorKind::InvalidParams
                }
            },
        },
{
    let child = parse_hrid_param(params.child.as_str())?;
    let parent = parse_hrid_param(params.parent.as_str())?;
    let digits = dir.config().digits();
    let child_text = child.to_string_with_digits(digits);
    let parent_text = parent.to_string_with_digits(digits);
    let ghost c = child@;
    let ghost p = parent@;
    match dir.accept_suspect_link(child, parent) {
        Err(AcceptSuspectLinkError::ChildNotFound(_)) => Err(tool_error(
            ToolErrorKind::ResourceNotFound,
            "child requirement not found",
            "child",
            child_text,
        )),
        Err(AcceptSuspectLinkError::ParentNotFound(_)) => Err(tool_error(
            ToolErrorKind::ResourceNotFound,
            "parent requirement not found",
            "parent",
            parent_text,
        )),
        Err(AcceptSuspectLinkError::LinkNotFound { child: _, parent: _ }) => {
            let mut data: Vec<(String, DetailValue)> = Vec::new();
            data.push((string_of("child"), DetailValue::Text(child_text)));
            data.push((string_of("parent"), DetailValue::Text(parent_text)));
            Err(ToolError { kind: ToolErrorKind::InvalidParams, message: string_of("link between child and parent does not exist"), data })
        },
        Ok(res) => {
            let status = match res {
                AcceptResult::Updated => string_of("updated"),
                AcceptResult::AlreadyUpToDate => string_of("already_up_to_date"),
            };
            proof {
                let t = old(dir).tree_view();
                let k = (uuid_of(t, c), uuid_of(t, p));
                assert(t.links().contains_key(k));
                assert(t.is_suspect(k) == (t.links()[k].fingerprint != crate::tree::content_fingerprint(t.reqs()[k.1])));
            }
            Ok(ReviewRequirementResponse { child: child_text, parent: parent_text, status })
        },
    }
}


// ---------------------------------------------------------------------------
// Editing tools
// ---------------------------------------------------------------------------

/// Whether the HRID `h` is among a list of HRIDs.
fn hrid_in(v: &Vec<Hrid>, h: &Hrid) -> (r: bool)
    ensures
        r == hrid_set(v@).contains(h@),
{
    let mut i: usize = 0;
    while i < v.len()
        invariant
            i <= v@.len(),
            forall|j: int| 0 <= j < i ==> v@[j]@ != h@,
        decreases v@.len() - i,
    {
        if v[i].same_as(h) {
            proof {
                assert(v@.map_values(|x: Hrid| x@)[i as int] == h@);
            }
            return true;
        }
        i = i + 1;
    }
    proof {
        if hrid_set(v@).contains(h@) {
            let hv = v@.map_values(|x: Hrid| x@);
            let j = choose|j: int| 0 <= j < hv.len() && #[trigger] hv[j] == h@;
            assert(v@[j]@ == h@);
        }
    }
    false
}

/// `link_requirement`: links `child` to `parent` (see
/// [`Directory::link_requirement`]), reporting whether the link existed.
pub fn link_requirement(dir: &mut Directory, params: &LinkRequirementParams) -> (r: Result<LinkRequirementResponse, ToolError>)
    requires
        old(dir).wf(),
    ensures
        final(dir).wf(),
        match r {
            Ok(resp) => {
                let t = old(dir).tree_view();
                let c = spec_parse_hrid(params.child@)->Ok_0;
                let p = spec_parse_hrid(params.parent@)->Ok_0;
                let cu = uuid_of(t, c);
                let pu = uuid_of(t, p);
                &&& spec_parse_hrid(params.child@) is Ok
                &&& spec_parse_hrid(params.parent@) is Ok
                &&& t.has_hrid(c)
                &&& t.has_hrid(p)
                &&& !t.reaches(pu, cu)
                &&& resp.child@ == spec_display(c, old(dir).config_view().digits)
                &&& resp.parent@ == spec_display(p, old(dir).config_view().digits)
                &&& resp.already_linked == t.links().contains_key((cu, pu))
                &&& final(dir).tree_view().links() == t.links().insert(
                    (cu, pu),
                    crate::requirement::ParentView { hrid: p, fingerprint: crate::tree::content_fingerprint(t.reqs()[pu]) },
                )
                &&& final(dir).tree_view().reqs() == t.reqs()
                &&& final(dir).dirty_set() == old(dir).dirty_set().insert(cu)
            },
            Err(e) => {
                let t = old(dir).tree_view();
                let pc = spec_parse_hrid(params.child@);
                let pp = spec_parse_hrid(params.parent@);
                &&& Directory::same_state(final(dir), old(dir))
                &&& {
                    ||| (pc is Err || pp is Err) && e.kind == ToolErrorKind::InvalidParams
                    ||| pc is Ok && pp is Ok && !(t.has_hrid(pc->Ok_0) && t.has_hrid(pp->Ok_0))
                        && e.kind == ToolErrorKind::ResourceNotFound
                    ||| pc is Ok && pp is Ok && t.has_hrid(pc->Ok_0) && t.has_hrid(pp->Ok_0)
                        && t.reaches(uuid_of(t, pp->Ok_0), uuid_of(t, pc->Ok_0))
                        && e.kind == ToolErrorKind::InvalidParams
                }
            },
        },
{
    let child = parse_hrid_param(params.child.as_str())?;
    let parent = parse_hrid_param(params.parent.as_str())?;
    let digits = dir.config().digits();
    let siblings = dir.children_of(&parent);
    let already_linked = hrid_in(&siblings, &child);
    let ghost t = old(dir).tree_view();
    proof {
        dir.lemma_tree_wf();
        if t.has_hrid(parent@) && t.has_hrid(child@) {
            let cu = uuid_of(t, child@);
            let pu = uuid_of(t, parent@);
            assert(t.reqs()[cu].hrid == child@);
            if hrid_set(siblings@).contains(child@) {
                let x = choose|x: u128| t.children_of(pu).contains(x) && t.reqs().contains_key(x) && #[trigger] t.reqs()[x].hrid == child@;
                t.lemma_hrid_unique(x, cu);
            }
            if t.links().contains_key((cu, pu)) {
                assert(t.children_of(pu).contains(cu));
                assert(hrids_of(t, t.children_of(pu)).contains(child@));
            }
        }
    }
    match dir.link_requirement(&child, &parent) {
        Err(crate::tree::LinkRequirementError::ChildNotFound(_)) => Err(tool_error(
            ToolErrorKind::ResourceNotFound,
            "child requirement not found",
            "child",
            child.to_string_with_digits(digits),
        )),
        Err(crate::tree::LinkRequirementError::ParentNotFound(_)) => Err(tool_error(
            ToolErrorKind::ResourceNotFound,
            "parent requirement not found",
            "parent",
            parent.to_string_with_digits(digits),
        )),
        Err(crate::tree::LinkRequirementError::WouldCreateCycle(message)) => Err(tool_error(
            ToolErrorKind::InvalidParams,
            "cannot create link: would form a cycle",
            "reason",
            message,
        )),
        Ok(_) => Ok(LinkRequirementResponse {
            child: child.to_string_with_digits(digits),
            parent: parent.to_string_with_digits(digits),
            already_linked,
        }),
    }
}

/// `unlink_requirement`: removes the link from `child` to `parent`.
pub fn unlink_requirement(dir: &mut Directory, params: &UnlinkRequirementParams) -> (r: Result<UnlinkRequirementResponse, ToolError>)
    requires
        old(dir).wf(),
    ensures
        final(dir).wf(),
        match r {
            Ok(resp) => {
                let t = old(dir).tree_view();
                let c = spec_parse_hrid(params.child@)->Ok_0;
                let p = spec_parse_hrid(params.parent@)->Ok_0;
                let cu = uuid_of(t, c);
                let pu = uuid_of(t, p);
                &&& spec_parse_hrid(params.child@) is Ok
                &&& spec_parse_hrid(params.parent@) is Ok
                &&& t.has_hrid(c)
                &&& t.has_hrid(p)
                &&& t.links().contains_key((cu, pu))
                &&& resp.child@ == spec_display(c, old(dir).config_view().digits)
                &&& resp.parent@ == spec_display(p, old(dir).config_view().digits)
                &&& final(dir).tree_view().links() == t.links().remove((cu, pu))
                &&& final(dir).tree_view().reqs() == t.reqs()
                &&& final(dir).dirty_set() == old(dir).dirty_set().insert(cu)
            },
            Err(e) => {
                let t = old(dir).tree_view();
                let pc = spec_parse_hrid(params.child@);
                let pp = spec_parse_hrid(params.parent@);
                &&& Directory::same_state(final(dir), old(dir))
                &&& {
                    ||| (pc is Err || pp is Err) && e.kind == ToolErrorKind::InvalidParams
                    ||| pc is Ok && pp is Ok && !(t.has_hrid(pc->Ok_0) && t.has_hrid(pp->Ok_0))
                        && e.kind == ToolErrorKind::ResourceNotFound
                    ||| pc is Ok && pp is Ok && t.has_hrid(pc->Ok_0) && t.has_hrid(pp->Ok_0)
                        && !t.links().contains_key((uuid_of(t, pc->Ok_0), uuid_of(t, pp->Ok_0)))
                        && e.kind == ToolErrorKind::InvalidParams
                }
            },
        },
{
    let child = parse_hrid_param(params.child.as_str())?;
    let parent = parse_hrid_param(params.parent.as_str())?;
    let digits = dir.config().digits();
    proof {
        dir.lemma_tree_wf();
    }
    if dir.tree().uuid_for_hrid(&child).is_none() {
        return Err(tool_error(ToolErrorKind::ResourceNotFound, "child requirement not found", "child", child.to_string_with_digits(digits)));
    }
    if dir.tree().uuid_for_hrid(&parent).is_none() {
        return Err(tool_error(ToolErrorKind::ResourceNotFound, "parent requirement not found", "parent", parent.to_string_with_digits(digits)));
    }
    match dir.unlink_requirement(&child, &parent) {
        Err(e) => {
            let mut data: Vec<(String, DetailValue)> = Vec::new();
            data.push((string_of("child"), DetailValue::Text(child.to_string_with_digits(digits))));
            data.push((string_of("parent"), DetailValue::Text(parent.to_string_with_digits(digits))));
            data.push((string_of("reason"), DetailValue::Text(e.to_string(digits))));
            Err(ToolError { kind: ToolErrorKind::InvalidParams, message: string_of("link between child and parent does not exist"), data })
        },
        Ok(()) => Ok(UnlinkRequirementResponse {
            child: child.to_string_with_digits(digits),
            parent: parent.to_string_with_digits(digits),
        }),
    }
}


/// Strictly increasing texts.
pub open spec fn increasing(x: Seq<Seq<char>>) -> bool {
    forall|i: int, j: int| 0 <= i < j < x.len() ==> text_lt(x[i], x[j])
}

/// The trimmed tags as a set.
pub open spec fn trimmed_tag_set(tags: Seq<String>) -> Set<Seq<char>> {
    tags.map_values(|t: String| trim(t@)).to_set()
}

/// The tag list an update stores: the trimmed tags, once each, in order.
pub open spec fn stored_tags(tags: Option<Vec<String>>) -> Option<Seq<Seq<char>>> {
    match tags {
        Some(v) => Some(choose|x: Seq<Seq<char>>| increasing(x) && x.to_set() == trimmed_tag_set(v@)),
        None => None,
    }
}

proof fn lemma_increasing_unique(a: Seq<Seq<char>>, b: Seq<Seq<char>>)
    requires
        increasing(a),
        increasing(b),
        a.to_set() == b.to_set(),
    ensures
        a == b,
    decreases a.len() + b.len(),
{
    if a.len() > 0 && b.len() > 0 {
        assert(b.to_set().contains(a[0]));
        assert(a.to_set().contains(b[0]));
        let i = choose|i: int| 0 <= i < b.len() && b[i] == a[0];
        let j = choose|j: int| 0 <= j < a.len() && a[j] == b[0];
        if i > 0 {
            if j > 0 {
                crate::text::lemma_text_lt_asym(b[0], a[0]);
            } else {
                crate::text::lemma_text_lt_irrefl(b[0]);
            }
        }
        assert(a[0] == b[0]);
        let a1 = a.drop_first();
        let b1 = b.drop_first();
        assert forall|x: Seq<char>| a1.to_set().contains(x) == b1.to_set().contains(x) by {
            if a1.to_set().contains(x) {
                let k = choose|k: int| 0 <= k < a1.len() && a1[k] == x;
                assert(a.to_set().contains(x));
                assert(x != a[0]) by {
                    assert(text_lt(a[0], a[k + 1]));
                    crate::text::lemma_text_lt_irrefl(a[0]);
                }
                let m = choose|m: int| 0 <= m < b.len() && b[m] == x;
                assert(m > 0);
                assert(b1[m - 1] == x);
            }
            if b1.to_set().contains(x) {
                let k = choose|k: int| 0 <= k < b1.len() && b1[k] == x;
                assert(b.to_set().contains(x));
                assert(x != b[0]) by {
                    assert(text_lt(b[0], b[k + 1]));
                    crate::text::lemma_text_lt_irrefl(b[0]);
                }
                let m = choose|m: int| 0 <= m < a.len() && a[m] == x;
                assert(m > 0);
                assert(a1[m - 1] == x);
            }
        }
        assert(a1.to_set() =~= b1.to_set());
        lemma_increasing_unique(a1, b1);
        assert(a =~= seq![a[0]] + a1);
        assert(b =~= seq![b[0]] + b1);
    } else if a.len() > 0 {
        assert(b.to_set().contains(a[0]));
    } else if b.len() > 0 {
        assert(a.to_set().contains(b[0]));
    } else {
        assert(a =~= b);
    }
}

/// The trimmed tags, once each, in order.
fn normalise_tags(tags: &Vec<String>) -> (r: Vec<String>)
    ensures
        texts(r@) == stored_tags(Some(*tags))->Some_0,
{
    let mut out: Vec<String> = Vec::new();
    let mut i: usize = 0;
    while i < tags.len()
        invariant
            i <= tags@.len(),
            increasing(texts(out@)),
            texts(out@).to_set() == tags@.take(i as int).map_values(|t: String| trim(t@)).to_set(),
        decreases tags@.len() - i,
    {
        let t = string_from_chars(trimmed(chars_of(tags[i].as_str()).as_slice()).as_slice());
        proof {
            assert(tags@.take(i + 1).map_values(|t: String| trim(t@)) =~= tags@.take(i as int).map_values(|t: String| trim(t@)).push(trim(tags@[i as int]@)));
            tags@.take(i as int).map_values(|t: String| trim(t@)).lemma_push_to_set_commute(trim(tags@[i as int]@));
        }
        proof {
            assert forall|a: int, b: int| 0 <= a < b < out@.len() implies text_lt(out@[a]@, out@[b]@) by {
                assert(texts(out@)[a] == out@[a]@ && texts(out@)[b] == out@[b]@);
            }
        }
        add_sorted(&mut out, t.as_str());
        proof {
            assert forall|a: int, b: int| 0 <= a < b < texts(out@).len() implies text_lt(texts(out@)[a], texts(out@)[b]) by {
                assert(texts(out@)[a] == out@[a]@ && texts(out@)[b] == out@[b]@);
            }
        }
        i = i + 1;
    }
    proof {
        assert(tags@.take(i as int) =~= tags@);
        let x = choose|x: Seq<Seq<char>>| increasing(x) && x.to_set() == trimmed_tag_set(tags@);
        assert(increasing(texts(out@)) && texts(out@).to_set() == trimmed_tag_set(tags@));
        lemma_increasing_unique(x, texts(out@));
    }
    out
}

/// `update_requirement`: replaces the given fields of a requirement (tags
/// trimmed, once each, in order) and reports whether anything changed.
pub fn update_requirement(dir: &mut Directory, params: &UpdateRequirementParams) -> (r: Result<UpdateRequirementResponse, ToolError>)
    requires
        old(dir).wf(),
    ensures
        final(dir).wf(),
        match r {
            Ok(resp) => {
                let t = old(dir).tree_view();
                let h = spec_parse_hrid(params.hrid@)->Ok_0;
                let u = uuid_of(t, h);
                let o = t.reqs()[u];
                let n = crate::tree::ReqSpec {
                    hrid: o.hrid,
                    title: crate::tree::updated(opt_view(params.title), o.title),
                    body: crate::tree::updated(opt_view(params.body), o.body),
                    tags: crate::tree::updated(stored_tags(params.tags), o.tags),
                    created: o.created,
                };
                &&& !(params.title is None && params.body is None && params.tags is None)
                &&& spec_parse_hrid(params.hrid@) is Ok
                &&& t.has_hrid(h)
                &&& final(dir).tree_view().reqs() == t.reqs().insert(u, n)
                &&& final(dir).tree_view().links() == t.links()
                &&& resp.changed == (n != o)
                &&& final(dir).dirty_set() == if resp.changed {
                    old(dir).dirty_set().insert(u)
                } else {
                    old(dir).dirty_set()
                }
                &&& final(dir).path_map() == old(dir).path_map()
                &&& final(dir).deletion_set() == old(dir).deletion_set()
                &&& final(dir).config_view() == old(dir).config_view()
                &&& describes_details(final(dir).tree_view(), u, old(dir).config_view().digits, resp.requirement)
            },
            Err(e) => {
                &&& Directory::same_state(final(dir), old(dir))
                &&& {
                    ||| params.title is None && params.body is None && params.tags is None && e.kind == ToolErrorKind::InvalidParams
                    ||| spec_parse_hrid(params.hrid@) is Err && e.kind == ToolErrorKind::InvalidParams
                    ||| spec_parse_hrid(params.hrid@) is Ok && !old(dir).tree_view().has_hrid(spec_parse_hrid(params.hrid@)->Ok_0)
                        && e.kind == ToolErrorKind::ResourceNotFound
                }
            },
        },
{
    if params.title.is_none() && params.body.is_none() && params.tags.is_none() {
        let mut data: Vec<(String, DetailValue)> = Vec::new();
        let mut fields: Vec<String> = Vec::new();
        fields.push(string_of("title"));
        fields.push(string_of("body"));
        fields.push(string_of("tags"));
        data.push((string_of("fields"), DetailValue::List(fields)));
        return Err(ToolError {
            kind: ToolErrorKind::InvalidParams,
            message: string_of("at least one of `title`, `body`, or `tags` is required"),
            data,
        });
    }
    let (hrid, _) = lookup(dir, params.hrid.as_str())?;
    let tags = match &params.tags {
        Some(ts) => Some(normalise_tags(ts)),
        None => None,
    };
    let title = match &params.title {
        Some(x) => Some(copy_string(x)),
        None => None,
    };
    let body = match &params.body {
        Some(x) => Some(copy_string(x)),
        None => None,
    };
    proof {
        assert(crate::tree::text_update(title) == opt_view(params.title));
        assert(crate::tree::text_update(body) == opt_view(params.body));
        assert(crate::tree::tags_update(tags) == stored_tags(params.tags));
    }
    let digits = dir.config().digits();
    let changed = match dir.update_requirement(&hrid, title, body, tags) {
        Err(_) => {
            proof {
                assert(false);
            }
            return Err(not_found(params.hrid.as_str()));
        },
        Ok(c) => c,
    };
    proof {
        dir.lemma_tree_wf();
    }
    match dir.tree().find_by_hrid(&hrid) {
        None => {
            proof {
                let t = old(dir).tree_view();
                let u = uuid_of(t, hrid@);
                assert(dir.tree_view().reqs().contains_key(u));
                assert(dir.tree_view().reqs()[u].hrid == hrid@);
                assert(false);
            }
            Err(not_found(params.hrid.as_str()))
        },
        Some(v) => {
            proof {
                let t = old(dir).tree_view();
                let u = uuid_of(t, hrid@);
                assert(dir.tree_view().reqs().contains_key(u));
                assert(dir.tree_view().reqs()[u].hrid == hrid@);
                dir.tree_view().lemma_hrid_unique(v.uuid, u);
            }
            let requirement = details(dir, &v, digits);
            Ok(UpdateRequirementResponse { changed, requirement })
        },
    }
}


// ---------------------------------------------------------------------------
// Deleting
// ---------------------------------------------------------------------------

/// The requirements outside `s` that link to a member of `s`.
pub open spec fn kept_children(t: Tree, s: Set<u128>) -> Set<u128> {
    Set::new(|c: u128| exists|m: u128| s.contains(m) && #[trigger] t.links().contains_key((c, m)) && !s.contains(c))
}

/// The HRIDs among a list, as a set, of those of the list's first `n`.
pub open spec fn first_hrids(v: Seq<Hrid>, n: int) -> Set<SpecHrid> {
    hrid_set(v.take(n))
}

/// The response of a cascading delete of `u`: what `s` takes with it, and
/// the kept children of its members.
pub open spec fn cascade_answer(t: Tree, u: u128, digits: nat, deleted: Seq<Seq<char>>, unlinked: Seq<Seq<char>>, s: Set<u128>) -> bool {
    &&& crate::directory::least_orphan_closed(t, u, s)
    &&& deleted.to_set() == displayed(hrids_of(t, s), digits)
    &&& unlinked.to_set() == displayed(hrids_of(t, kept_children(t, s)), digits)
}

/// `delete_requirement`: deletes a requirement, refusing while it has
/// children, keeping them unlinked, or taking along every descendant left
/// without a parent; a dry run only reports.
pub fn delete_requirement(dir: &mut Directory, params: &DeleteRequirementParams) -> (r: Result<DeleteRequirementResponse, ToolError>)
    requires
        old(dir).wf(),
    ensures
        final(dir).wf(),
        match r {
            Ok(resp) => {
                let t = old(dir).tree_view();
                let digits = old(dir).config_view().digits;
                let h = spec_parse_hrid(params.hrid@)->Ok_0;
                let u = uuid_of(t, h);
                &&& spec_parse_hrid(params.hrid@) is Ok
                &&& t.has_hrid(h)
                &&& resp.mode == params.mode
                &&& resp.dry_run == params.dry_run
                &&& params.dry_run ==> Directory::same_state(final(dir), old(dir))
                &&& texts(resp.deleted@).no_duplicates()
                &&& exists|hs: Seq<Hrid>| strictly_sorted(hs) && texts(resp.deleted@) == #[trigger] displayed_list(hs, digits)
                &&& params.mode == DeleteMode::Cascade ==> crate::review::ascending(texts(resp.unlinked_children@))
                &&& match params.mode {
                    DeleteMode::Refuse => {
                        &&& t.children_of(u).is_empty()
                        &&& texts(resp.deleted@) == seq![spec_display(h, digits)]
                        &&& resp.unlinked_children@.len() == 0
                        &&& !params.dry_run ==> {
                            &&& final(dir).tree_view().reqs() == t.reqs().remove(u)
                            &&& final(dir).tree_view().links() == crate::directory::links_without(t.links(), u)
                            &&& final(dir).path_map() == old(dir).path_map().remove(u)
                            &&& final(dir).deletion_set() == old(dir).deletions_after_forgetting(u)
                        }
                    },
                    DeleteMode::Orphan => {
                        &&& texts(resp.deleted@) == seq![spec_display(h, digits)]
                        &&& texts(resp.unlinked_children@).to_set() == displayed(hrids_of(t, t.children_of(u)), digits)
                        &&& !params.dry_run ==> {
                            &&& final(dir).tree_view().reqs() == t.reqs().remove(u)
                            &&& final(dir).tree_view().links() == crate::directory::links_without(t.links(), u)
                            &&& final(dir).path_map() == old(dir).path_map().remove(u)
                            &&& final(dir).deletion_set() == old(dir).deletions_after_forgetting(u)
                            &&& final(dir).dirty_set() == old(dir).dirty_set().union(t.children_of(u))
                        }
                    },
                    DeleteMode::Cascade => exists|s: Set<u128>| {
                        &&& #[trigger] cascade_answer(t, u, digits, texts(resp.deleted@), texts(resp.unlinked_children@), s)
                        &&& !params.dry_run ==> {
                            &&& final(dir).tree_view().reqs().dom() == t.reqs().dom().difference(s)
                            &&& final(dir).path_map() == old(dir).path_map().remove_keys(s)
                            &&& final(dir).deletion_set() == old(dir).deletion_set().union(queued_paths(old(dir).path_map(), s))
                        }
                    },
                }
            },
            Err(e) => {
                let t = old(dir).tree_view();
                let h = spec_parse_hrid(params.hrid@)->Ok_0;
                &&& Directory::same_state(final(dir), old(dir))
                &&& {
                    ||| spec_parse_hrid(params.hrid@) is Err && e.kind == ToolErrorKind::InvalidParams
                    ||| spec_parse_hrid(params.hrid@) is Ok && !t.has_hrid(h) && e.kind == ToolErrorKind::ResourceNotFound
                    ||| spec_parse_hrid(params.hrid@) is Ok && t.has_hrid(h) && params.mode == DeleteMode::Refuse
                        && !t.children_of(uuid_of(t, h)).is_empty() && e.kind == ToolErrorKind::InvalidParams
                        && e.message@ == "requirement has children; use mode `orphan` to keep them or `cascade` to also delete orphaned descendants"@
                        && e.data@.len() == 2
                        && (e.data@[0].1 matches DetailValue::Text(v) && v@ == spec_display(h, old(dir).config_view().digits))
                        && (e.data@[1].1 matches DetailValue::List(v)
                            && texts(v@).to_set() == displayed(hrids_of(t, t.children_of(uuid_of(t, h))), old(dir).config_view().digits))
                }
            },
        },
{
    let (hrid, _) = lookup(dir, params.hrid.as_str())?;
    let digits = dir.config().digits();
    let ghost t = dir.tree_view();
    let ghost u = uuid_of(t, hrid@);
    proof {
        dir.lemma_tree_wf();
    }
    let children = dir.children_of(&hrid);
    if params.mode == DeleteMode::Refuse && children.len() > 0 {
        proof {
            assert(children@.map_values(|x: Hrid| x@)[0] == children@[0]@);
            assert(hrid_set(children@).contains(children@[0]@));
            assert(!t.children_of(u).is_empty());
        }
        let mut data: Vec<(String, DetailValue)> = Vec::new();
        data.push((string_of("hrid"), DetailValue::Text(hrid.to_string_with_digits(digits))));
        let listed = display_all(&children, digits);
        proof {
            lemma_display_all(children@, listed@, digits as nat);
        }
        data.push((string_of("children"), DetailValue::List(listed)));
        return Err(ToolError {
            kind: ToolErrorKind::InvalidParams,
            message: string_of(
                "requirement has children; use mode `orphan` to keep them or `cascade` to also delete orphaned descendants",
            ),
            data,
        });
    }
    proof {
        if params.mode == DeleteMode::Refuse {
            if !t.children_of(u).is_empty() {
                let c = t.children_of(u).choose();
                assert(hrids_of(t, t.children_of(u)).contains(t.reqs()[c].hrid)) by {
                    t.lemma_link_child_is_req((c, u));
                }
                assert(hrid_set(children@).contains(t.reqs()[c].hrid));
                assert(children@.len() > 0);
            }
        }
    }
    let mut one: Vec<Hrid> = Vec::new();
    one.push(hrid.clone());
    let deleted = match params.mode {
        DeleteMode::Cascade => dir.find_orphaned_descendants(&hrid),
        _ => one,
    };
    all_well_formed(&deleted);
    proof {
        assert forall|i: int, j: int| 0 <= i < j < deleted@.len() implies deleted@[i]@ != deleted@[j]@ by {
            if params.mode == DeleteMode::Cascade {
                assert(crate::sorting::hrid_lt(deleted@[i]@, deleted@[j]@));
                crate::sorting::lemma_hrid_lt_irrefl(deleted@[i]@);
            }
        }
    }
    let ghost s: Set<u128> = if params.mode == DeleteMode::Cascade {
        choose|s: Set<u128>| crate::directory::least_orphan_closed(t, u, s) && #[trigger] hrids_of(t, s) == hrid_set(deleted@)
    } else {
        Set::empty()
    };
    let unlinked = match params.mode {
        DeleteMode::Refuse => Vec::new(),
        DeleteMode::Orphan => {
            let v = display_all(&children, digits);
            proof {
                lemma_display_all(children@, v@, digits as nat);
            }
            v
        },
        DeleteMode::Cascade => {
            proof {
                assert(t.reqs().contains_key(u));
            }
            let kept = kept_children_of(dir, &deleted, digits, Ghost(s), Ghost(u));
            crate::review::distinct_sorted(&kept)
        },
    };
    let deleted_text = display_all(&deleted, digits);
    proof {
        assert(texts(deleted_text@) =~= displayed_list(deleted@, digits as nat));
        if params.mode != DeleteMode::Cascade {
            assert(strictly_sorted(deleted@));
        }
        lemma_display_all(deleted@, deleted_text@, digits as nat);
        lemma_displays_distinct(deleted@, deleted_text@, digits as nat);
        if params.mode != DeleteMode::Cascade {
            assert(texts(deleted_text@) =~= seq![spec_display(hrid@, digits as nat)]);
        }
    }
    if !params.dry_run {
        match params.mode {
            DeleteMode::Refuse => {
                match dir.delete_requirement(&hrid) {
                    Ok(()) => {},
                    Err(_) => {
                        proof {
                            assert(false);
                        }
                    },
                }
            },
            DeleteMode::Orphan => {
                match dir.delete_and_orphan(&hrid) {
                    Ok(()) => {},
                    Err(_) => {
                        proof {
                            assert(false);
                        }
                    },
                }
            },
            DeleteMode::Cascade => {
                delete_all(dir, &deleted);
                proof {
                    assert forall|x: u128| t.reqs().dom().difference(s).contains(x) == t.reqs().dom().difference(
                        Set::new(|w: u128| t.reqs().contains_key(w) && hrid_set(deleted@).contains(t.reqs()[w].hrid)),
                    ).contains(x) by {
                        if t.reqs().contains_key(x) && hrid_set(deleted@).contains(t.reqs()[x].hrid) {
                            assert(hrids_of(t, s).contains(t.reqs()[x].hrid));
                            let m = choose|m: u128| s.contains(m) && t.reqs().contains_key(m) && #[trigger] t.reqs()[m].hrid == t.reqs()[x].hrid;
                            t.lemma_hrid_unique(m, x);
                        }
                        if s.contains(x) && t.reqs().contains_key(x) {
                            assert(hrids_of(t, s).contains(t.reqs()[x].hrid));
                        }
                    }
                    assert(t.reqs().dom().difference(s) =~= t.reqs().dom().difference(
                        Set::new(|w: u128| t.reqs().contains_key(w) && hrid_set(deleted@).contains(t.reqs()[w].hrid)),
                    ));
                    let dd = Set::new(|w: u128| t.reqs().contains_key(w) && hrid_set(deleted@).contains(t.reqs()[w].hrid));
                    assert forall|x: u128| s.contains(x) == dd.contains(x) by {
                        if s.contains(x) {
                            assert(t.reqs().contains_key(x));
                            assert(hrids_of(t, s).contains(t.reqs()[x].hrid));
                        }
                        if dd.contains(x) {
                            assert(hrids_of(t, s).contains(t.reqs()[x].hrid));
                            let m = choose|m: u128| s.contains(m) && t.reqs().contains_key(m) && #[trigger] t.reqs()[m].hrid == t.reqs()[x].hrid;
                            t.lemma_hrid_unique(m, x);
                        }
                    }
                    assert(s =~= dd);
                }
            },
        }
    }
    proof {
        if params.mode == DeleteMode::Cascade {
            assert(cascade_answer(t, u, digits as nat, texts(deleted_text@), texts(unlinked@), s));
            if !params.dry_run {
                assert(dir.tree_view().reqs().dom() == t.reqs().dom().difference(s));
            }
        } else if params.mode == DeleteMode::Orphan {
            assert(texts(unlinked@).to_set() == displayed(hrids_of(t, t.children_of(u)), digits as nat));
            if !params.dry_run {
                assert(dir.tree_view().reqs() == t.reqs().remove(u));
            }
        } else {
            assert(t.children_of(u).is_empty());
            assert(unlinked@.len() == 0);
            if !params.dry_run {
                assert(dir.tree_view().reqs() == t.reqs().remove(u));
            }
        }
        if params.dry_run {
            assert(Directory::same_state(dir, old(dir)));
        }
    }
    let resp = DeleteRequirementResponse { mode: params.mode, dry_run: params.dry_run, deleted: deleted_text, unlinked_children: unlinked };
    proof {
        let dg = old(dir).config_view().digits;
        assert(dg == digits as nat);
        assert(t == old(dir).tree_view());
        assert(u == uuid_of(old(dir).tree_view(), spec_parse_hrid(params.hrid@)->Ok_0));
        if params.mode == DeleteMode::Cascade {
            assert(cascade_answer(t, u, dg, texts(resp.deleted@), texts(resp.unlinked_children@), s));
            assert(!params.dry_run ==> dir.tree_view().reqs().dom() == t.reqs().dom().difference(s));
            assert(exists|s2: Set<u128>| {
                &&& #[trigger] cascade_answer(t, u, dg, texts(resp.deleted@), texts(resp.unlinked_children@), s2)
                &&& !params.dry_run ==> dir.tree_view().reqs().dom() == t.reqs().dom().difference(s2)
            });
        }
    }
    Ok(resp)
}

/// Each HRID of the list is well formed.
fn all_well_formed(hs: &Vec<Hrid>)
    ensures
        forall|i: int| 0 <= i < hs@.len() ==> valid_hrid(#[trigger] hs@[i]@),
{
    let mut i: usize = 0;
    while i < hs.len()
        invariant
            i <= hs@.len(),
            forall|j: int| 0 <= j < i ==> valid_hrid(#[trigger] hs@[j]@),
        decreases hs@.len() - i,
    {
        hs[i].well_formed();
        i = i + 1;
    }
}

/// Distinct well-formed HRIDs display as distinct texts.
proof fn lemma_displays_distinct(hs: Seq<Hrid>, r: Seq<String>, digits: nat)
    requires
        r.len() == hs.len(),
        forall|i: int| 0 <= i < hs.len() ==> valid_hrid(#[trigger] hs[i]@),
        forall|i: int, j: int| 0 <= i < j < hs.len() ==> hs[i]@ != hs[j]@,
        forall|i: int| 0 <= i < r.len() ==> #[trigger] r[i]@ == spec_display(hs[i]@, digits),
    ensures
        texts(r).no_duplicates(),
{
    assert forall|i: int, j: int| 0 <= i < r.len() && 0 <= j < r.len() && i != j implies texts(r)[i] != texts(r)[j] by {
        crate::hrid::lemma_display_parse_roundtrip(hs[i]@, digits);
        crate::hrid::lemma_display_parse_roundtrip(hs[j]@, digits);
        assert(texts(r)[i] == r[i]@);
        assert(texts(r)[j] == r[j]@);
        if i > j {
            assert(hs[j]@ != hs[i]@);
        }
    }
}

/// Deletes, unlinking their children, each requirement named in `hrids`
/// that still exists.
fn delete_all(dir: &mut Directory, hrids: &Vec<Hrid>)
    requires
        old(dir).wf(),
    ensures
        final(dir).wf(),
        final(dir).tree_view().reqs().dom() == old(dir).tree_view().reqs().dom().difference(
            Set::new(|w: u128| old(dir).tree_view().reqs().contains_key(w) && hrid_set(hrids@).contains(old(dir).tree_view().reqs()[w].hrid)),
        ),
        final(dir).path_map() == old(dir).path_map().remove_keys(
            Set::new(|w: u128| old(dir).tree_view().reqs().contains_key(w) && hrid_set(hrids@).contains(old(dir).tree_view().reqs()[w].hrid)),
        ),
        final(dir).deletion_set() == old(dir).deletion_set().union(queued_paths(old(dir).path_map(),
            Set::new(|w: u128| old(dir).tree_view().reqs().contains_key(w) && hrid_set(hrids@).contains(old(dir).tree_view().reqs()[w].hrid)),
        )),
{
    let ghost t = old(dir).tree_view();
    let mut i: usize = 0;
    while i < hrids.len()
        invariant
            dir.wf(),
            i <= hrids@.len(),
            t == old(dir).tree_view(),
            forall|w: u128| #[trigger] dir.tree_view().reqs().contains_key(w) ==> t.reqs().contains_key(w)
                && dir.tree_view().reqs()[w].hrid == t.reqs()[w].hrid,
            dir.tree_view().reqs().dom() == t.reqs().dom().difference(
                Set::new(|w: u128| t.reqs().contains_key(w) && first_hrids(hrids@, i as int).contains(t.reqs()[w].hrid)),
            ),
            dir.path_map() == old(dir).path_map().remove_keys(
                Set::new(|w: u128| t.reqs().contains_key(w) && first_hrids(hrids@, i as int).contains(t.reqs()[w].hrid)),
            ),
            dir.deletion_set() == old(dir).deletion_set().union(queued_paths(old(dir).path_map(),
                Set::new(|w: u128| t.reqs().contains_key(w) && first_hrids(hrids@, i as int).contains(t.reqs()[w].hrid)),
            )),
        decreases hrids@.len() - i,
    {
        let ghost before = dir.tree_view();
        let ghost bpm = dir.path_map();
        let ghost bdel = dir.deletion_set();
        let ghost d0 = Set::new(|w: u128| t.reqs().contains_key(w) && first_hrids(hrids@, i as int).contains(t.reqs()[w].hrid));
        let ghost d1 = Set::new(|w: u128| t.reqs().contains_key(w) && first_hrids(hrids@, i + 1).contains(t.reqs()[w].hrid));
        proof {
            assert(hrids@.take(i + 1) =~= hrids@.take(i as int).push(hrids@[i as int]));
            assert(hrids@.take(i + 1).map_values(|x: Hrid| x@) =~= hrids@.take(i as int).map_values(|x: Hrid| x@).push(hrids@[i as int]@));
            hrids@.take(i as int).map_values(|x: Hrid| x@).lemma_push_to_set_commute(hrids@[i as int]@);
        }
        proof {
            dir.lemma_tree_wf();
        }
        match dir.delete_and_orphan(&hrids[i]) {
            Ok(()) => {
                proof {
                    let h = hrids@[i as int]@;
                    let v = uuid_of(before, h);
                    assert(before.reqs()[v].hrid == h);
                    assert forall|w: u128| dir.tree_view().reqs().dom().contains(w) == t.reqs().dom().difference(
                        Set::new(|x: u128| t.reqs().contains_key(x) && first_hrids(hrids@, i + 1).contains(t.reqs()[x].hrid)),
                    ).contains(w) by {
                        if t.reqs().contains_key(w) && t.reqs()[w].hrid == h && before.reqs().contains_key(w) {
                            before.lemma_hrid_unique(w, v);
                        }
                        if w == v {
                            assert(t.reqs().contains_key(v));
                        }
                    }
                    assert(dir.tree_view().reqs().dom() =~= t.reqs().dom().difference(
                        Set::new(|x: u128| t.reqs().contains_key(x) && first_hrids(hrids@, i + 1).contains(t.reqs()[x].hrid)),
                    ));
                    // The one requirement removed now is `v`.
                    assert forall|w: u128| #[trigger] d1.contains(w) == (d0.contains(w) || w == v) by {
                        if w == v {
                            assert(t.reqs().contains_key(v));
                            assert(t.reqs()[v].hrid == h);
                        }
                        if d1.contains(w) && !d0.contains(w) {
                            assert(t.reqs()[w].hrid == h);
                            assert(before.reqs().contains_key(w));
                            before.lemma_hrid_unique(w, v);
                        }
                    }
                    assert(!d0.contains(v));
                    assert(dir.path_map() =~= old(dir).path_map().remove_keys(d1));
                    let opm = old(dir).path_map();
                    assert forall|p: Seq<Seq<char>>| #[trigger] queued_paths(opm, d1).contains(p) == (queued_paths(opm, d0).contains(p)
                        || (opm.contains_key(v) && opm[v] == p)) by {
                        if queued_paths(opm, d1).contains(p) {
                            let w = choose|w: u128| d1.contains(w) && opm.contains_key(w) && #[trigger] opm[w] == p;
                            if w != v {
                                assert(d0.contains(w));
                            }
                        }
                        if queued_paths(opm, d0).contains(p) {
                            let w = choose|w: u128| d0.contains(w) && opm.contains_key(w) && #[trigger] opm[w] == p;
                            assert(d1.contains(w));
                        }
                        if opm.contains_key(v) && opm[v] == p {
                            assert(d1.contains(v));
                        }
                    }
                    if bpm.contains_key(v) {
                        assert(bpm[v] == opm[v]);
                    }
                    assert(bpm.contains_key(v) == opm.contains_key(v));
                    assert(dir.deletion_set() =~= old(dir).deletion_set().union(queued_paths(opm, d1)));
                }
            },
            Err(_) => {
                proof {
                    let h = hrids@[i as int]@;
                    assert forall|w: u128| dir.tree_view().reqs().dom().contains(w) == t.reqs().dom().difference(
                        Set::new(|x: u128| t.reqs().contains_key(x) && first_hrids(hrids@, i + 1).contains(t.reqs()[x].hrid)),
                    ).contains(w) by {
                        if before.reqs().contains_key(w) && t.reqs()[w].hrid == h {
                            assert(before.has_hrid(h));
                        }
                    }
                    assert(dir.tree_view().reqs().dom() =~= t.reqs().dom().difference(
                        Set::new(|x: u128| t.reqs().contains_key(x) && first_hrids(hrids@, i + 1).contains(t.reqs()[x].hrid)),
                    ));
                    assert forall|w: u128| #[trigger] d1.contains(w) == d0.contains(w) by {
                        if d1.contains(w) && !d0.contains(w) {
                            assert(t.reqs()[w].hrid == h);
                            assert(before.reqs().contains_key(w));
                            assert(before.has_hrid(h));
                        }
                    }
                    assert(d1 =~= d0);
                }
            },
        }
        i = i + 1;
    }
    proof {
        assert(hrids@.take(i as int) =~= hrids@);
    }
}

/// The rendered HRIDs of the children outside `s` of the members of `s`
/// whose HRID is in `hs`.
pub open spec fn kept_display(t: Tree, s: Set<u128>, hs: Set<SpecHrid>, digits: nat) -> Set<Seq<char>> {
    Set::new(|x: Seq<char>| exists|c: u128, m: u128|
        hs.contains(t.reqs()[m].hrid) && s.contains(m) && #[trigger] t.links().contains_key((c, m)) && !s.contains(c)
            && x == spec_display(t.reqs()[c].hrid, digits))
}

/// The rendered HRIDs, once each and in order, of the children of the
/// requirements named in `deleted` that are not themselves named there.
fn kept_children_of(dir: &Directory, deleted: &Vec<Hrid>, digits: usize, Ghost(s): Ghost<Set<u128>>, Ghost(root): Ghost<u128>) -> (r: Vec<String>)
    requires
        dir.wf(),
        dir.tree_view().reqs().contains_key(root),
        crate::directory::orphan_closed(dir.tree_view(), root, s),
        hrids_of(dir.tree_view(), s) == hrid_set(deleted@),
    ensures
        texts(r@).to_set() == displayed(hrids_of(dir.tree_view(), kept_children(dir.tree_view(), s)), digits as nat),
{
    let ghost t = dir.tree_view();
    let ghost dv = digits as nat;
    proof {
        dir.lemma_tree_wf();
        assert(kept_display(t, s, first_hrids(deleted@, 0), dv) =~= Set::empty()) by {
            assert(deleted@.take(0).map_values(|x: Hrid| x@).to_set() =~= Set::empty());
        }
        assert(texts(Seq::<String>::empty()).to_set() =~= Set::<Seq<char>>::empty());
    }
    let mut out: Vec<String> = Vec::new();
    let mut i: usize = 0;
    while i < deleted.len()
        invariant
            dir.wf(),
            t == dir.tree_view(),
            t.wf(),
            dv == digits as nat,
            t.reqs().contains_key(root),
            crate::directory::orphan_closed(t, root, s),
            hrids_of(t, s) == hrid_set(deleted@),
            i <= deleted@.len(),
            forall|a: int, b: int| 0 <= a < b < out@.len() ==> text_lt(out@[a]@, out@[b]@),
            texts(out@).to_set() == kept_display(t, s, first_hrids(deleted@, i as int), dv),
        decreases deleted@.len() - i,
    {
        let d = &deleted[i];
        let ghost md = uuid_of(t, d@);
        proof {
            assert(hrid_set(deleted@).contains(d@)) by {
                assert(deleted@.map_values(|x: Hrid| x@)[i as int] == d@);
            }
            let m = choose|m: u128| s.contains(m) && t.reqs().contains_key(m) && #[trigger] t.reqs()[m].hrid == d@;
            assert(t.has_hrid(d@));
            t.lemma_hrid_unique(m, md);
            assert(s.contains(md));
        }
        let cs = dir.children_of(d);
        let ghost base = kept_display(t, s, first_hrids(deleted@, i as int), dv);
        let mut j: usize = 0;
        while j < cs.len()
            invariant
                dir.wf(),
                t == dir.tree_view(),
                dv == digits as nat,
                j <= cs@.len(),
                forall|a: int, b: int| 0 <= a < b < out@.len() ==> text_lt(out@[a]@, out@[b]@),
                texts(out@).to_set() == base.union(Set::new(|x: Seq<char>| exists|k: int|
                    0 <= k < j && !hrid_set(deleted@).contains(#[trigger] cs@[k]@) && x == spec_display(cs@[k]@, dv))),
            decreases cs@.len() - j,
        {
            let ghost before = texts(out@).to_set();
            if !hrid_in(deleted, &cs[j]) {
                let text = cs[j].to_string_with_digits(digits);
                add_sorted(&mut out, text.as_str());
            }
            proof {
                assert(texts(out@).to_set() =~= base.union(Set::new(|x: Seq<char>| exists|k: int|
                    0 <= k < j + 1 && !hrid_set(deleted@).contains(#[trigger] cs@[k]@) && x == spec_display(cs@[k]@, dv))));
            }
            j = j + 1;
        }
        proof {
            let added = Set::new(|x: Seq<char>| exists|k: int|
                0 <= k < j && !hrid_set(deleted@).contains(#[trigger] cs@[k]@) && x == spec_display(cs@[k]@, dv));
            let next = kept_display(t, s, first_hrids(deleted@, i + 1), dv);
            assert(deleted@.take(i + 1) =~= deleted@.take(i as int).push(deleted@[i as int]));
            assert(deleted@.take(i + 1).map_values(|x: Hrid| x@) =~= deleted@.take(i as int).map_values(|x: Hrid| x@).push(d@));
            deleted@.take(i as int).map_values(|x: Hrid| x@).lemma_push_to_set_commute(d@);
            assert(first_hrids(deleted@, i + 1) == first_hrids(deleted@, i as int).insert(d@));
            assert forall|x: Seq<char>| #[trigger] next.contains(x) == base.union(added).contains(x) by {
                if next.contains(x) {
                    let (c, m) = choose|c: u128, m: u128|
                        first_hrids(deleted@, i + 1).contains(t.reqs()[m].hrid) && s.contains(m) && #[trigger] t.links().contains_key((c, m)) && !s.contains(c)
                            && x == spec_display(t.reqs()[c].hrid, dv);
                    if !first_hrids(deleted@, i as int).contains(t.reqs()[m].hrid) {
                        assert(t.reqs()[m].hrid == d@);
                        assert(m == root || t.reqs().contains_key(m));
                        t.lemma_hrid_unique(m, md);
                        assert(t.children_of(md).contains(c));
                        t.lemma_link_child_is_req((c, m));
                        assert(hrids_of(t, t.children_of(md)).contains(t.reqs()[c].hrid));
                        assert(hrid_set(cs@).contains(t.reqs()[c].hrid));
                        let csv = cs@.map_values(|y: Hrid| y@);
                        let k = choose|k: int| 0 <= k < csv.len() && #[trigger] csv[k] == t.reqs()[c].hrid;
                        assert(cs@[k]@ == t.reqs()[c].hrid);
                        if hrid_set(deleted@).contains(cs@[k]@) {
                            let m2 = choose|m2: u128| s.contains(m2) && t.reqs().contains_key(m2) && #[trigger] t.reqs()[m2].hrid == cs@[k]@;
                            t.lemma_hrid_unique(m2, c);
                        }
                        assert(added.contains(x));
                    }
                }
                if added.contains(x) {
                    let k = choose|k: int| 0 <= k < j && !hrid_set(deleted@).contains(#[trigger] cs@[k]@) && x == spec_display(cs@[k]@, dv);
                    assert(hrid_set(cs@).contains(cs@[k]@)) by {
                        assert(cs@.map_values(|y: Hrid| y@)[k] == cs@[k]@);
                    }
                    let c = choose|c: u128| t.children_of(md).contains(c) && t.reqs().contains_key(c) && #[trigger] t.reqs()[c].hrid == cs@[k]@;
                    assert(t.links().contains_key((c, md)));
                    if s.contains(c) {
                        assert(hrids_of(t, s).contains(t.reqs()[c].hrid));
                    }
                    assert(t.reqs()[md].hrid == d@);
                    assert(first_hrids(deleted@, i + 1).contains(t.reqs()[md].hrid));
                    assert(next.contains(x));
                }
                if base.contains(x) {
                    let (c, m) = choose|c: u128, m: u128|
                        first_hrids(deleted@, i as int).contains(t.reqs()[m].hrid) && s.contains(m) && #[trigger] t.links().contains_key((c, m)) && !s.contains(c)
                            && x == spec_display(t.reqs()[c].hrid, dv);
                    assert(first_hrids(deleted@, i + 1).contains(t.reqs()[m].hrid));
                }
            }
            assert(next =~= base.union(added));
        }
        i = i + 1;
    }
    proof {
        let fin = kept_display(t, s, first_hrids(deleted@, i as int), dv);
        assert(deleted@.take(i as int) =~= deleted@);
        let target = displayed(hrids_of(t, kept_children(t, s)), dv);
        assert forall|x: Seq<char>| #[trigger] fin.contains(x) == target.contains(x) by {
            if fin.contains(x) {
                let (c, m) = choose|c: u128, m: u128|
                    first_hrids(deleted@, i as int).contains(t.reqs()[m].hrid) && s.contains(m) && #[trigger] t.links().contains_key((c, m)) && !s.contains(c)
                        && x == spec_display(t.reqs()[c].hrid, dv);
                t.lemma_link_child_is_req((c, m));
                assert(kept_children(t, s).contains(c));
                assert(hrids_of(t, kept_children(t, s)).contains(t.reqs()[c].hrid));
            }
            if target.contains(x) {
                let h = choose|h: SpecHrid| #[trigger] hrids_of(t, kept_children(t, s)).contains(h) && spec_display(h, dv) == x;
                let c = choose|c: u128| kept_children(t, s).contains(c) && t.reqs().contains_key(c) && #[trigger] t.reqs()[c].hrid == h;
                let m = choose|m: u128| s.contains(m) && #[trigger] t.links().contains_key((c, m)) && !s.contains(c);
                if m != root {
                    assert(t.reqs().contains_key(m));
                }
                assert(hrids_of(t, s).contains(t.reqs()[m].hrid));
                assert(first_hrids(deleted@, i as int).contains(t.reqs()[m].hrid));
            }
        }
        assert(fin =~= target);
    }
    out
}


// ---------------------------------------------------------------------------
// Creating
// ---------------------------------------------------------------------------

/// The namespace segments kept from the parameters: trimmed, the empty ones
/// dropped.
pub open spec fn kept_segments(ns: Seq<String>) -> Seq<Seq<char>>
    decreases ns.len(),
{
    if ns.len() == 0 {
        Seq::empty()
    } else {
        let rest = kept_segments(ns.drop_last());
        let t = trim(ns.last()@);
        if t.len() == 0 {
            rest
        } else {
            rest.push(t)
        }
    }
}

/// The content a new requirement is made from: a `#` heading with the
/// trimmed title (when it is not blank) and the body (when it is not
/// blank) after a blank line.
pub open spec fn creation_content(title: Seq<char>, body: Seq<char>) -> Seq<char> {
    let tt = trim(title);
    if tt.len() > 0 && trim(body).len() > 0 {
        "# "@ + tt + "\n\n"@ + body
    } else if tt.len() > 0 {
        "# "@ + tt
    } else if trim(body).len() > 0 {
        body
    } else {
        Seq::empty()
    }
}

/// The parsed parent parameters, as far as they parse.
pub open spec fn parents_parse(ps: Seq<String>) -> bool {
    forall|i: int| 0 <= i < ps.len() ==> #[trigger] spec_parse_hrid(ps[i]@) is Ok
}

fn keep_segments(ns: &Vec<String>) -> (r: Vec<String>)
    ensures
        texts(r@) == kept_segments(ns@),
{
    let mut out: Vec<String> = Vec::new();
    let mut i: usize = 0;
    while i < ns.len()
        invariant
            i <= ns@.len(),
            texts(out@) == kept_segments(ns@.take(i as int)),
        decreases ns@.len() - i,
    {
        proof {
            assert(ns@.take(i + 1).drop_last() =~= ns@.take(i as int));
        }
        let t = string_from_chars(trimmed(chars_of(ns[i].as_str()).as_slice()).as_slice());
        if chars_of(t.as_str()).len() > 0 {
            let ghost before = texts(out@);
            out.push(t);
            proof {
                assert(texts(out@) =~= before.push(trim(ns@[i as int]@)));
            }
        }
        i = i + 1;
    }
    proof {
        assert(ns@.take(i as int) =~= ns@);
    }
    out
}

fn creation_text(title: &str, body: &str) -> (r: String)
    ensures
        r@ == creation_content(title@, body@),
{
    let tt = string_from_chars(trimmed(chars_of(title).as_slice()).as_slice());
    let body_blank = trimmed(chars_of(body).as_slice()).len() == 0;
    if chars_of(tt.as_str()).len() > 0 {
        let mut r = string_of("# ");
        push_str(&mut r, tt.as_str());
        if !body_blank {
            push_str(&mut r, "\n\n");
            push_str(&mut r, body);
        }
        r
    } else if !body_blank {
        string_of(body)
    } else {
        String::new()
    }
}

/// `create_requirement`: adds a requirement (see
/// [`Directory::add_requirement_with_namespace`]) and links it to each of
/// its parents, which must all exist.
#[verifier::loop_isolation(false)]
pub fn create_requirement(dir: &mut Directory, params: &CreateRequirementParams, templates: &[(String, String)]) -> (r: Result<RequirementDetails, ToolError>)
    requires
        old(dir).wf(),
        old(dir).ids_fit(),
    ensures
        final(dir).wf(),
        match r {
            Ok(d) => {
                let t = old(dir).tree_view();
                let kind = uppercase(trim(params.kind@));
                &&& trim(params.kind@).len() > 0
                &&& parents_parse(params.parents@)
                &&& forall|i: int| 0 <= i < params.parents@.len() ==> t.has_hrid(#[trigger] spec_parse_hrid(params.parents@[i]@)->Ok_0)
                &&& exists|u: u128| {
                    let h = final(dir).tree_view().reqs()[u].hrid;
                    &&& !t.reqs().contains_key(u)
                    &&& #[trigger] final(dir).tree_view().reqs().contains_key(u)
                    &&& h.namespace == kept_segments(params.namespace@)
                    &&& h.kind == kind
                    &&& t.ids_below(h.namespace, h.kind, h.id)
                    &&& (h.id == 1 || t.has_id(h.namespace, h.kind, (h.id - 1) as nat))
                    &&& (final(dir).tree_view().reqs()[u].title, final(dir).tree_view().reqs()[u].body)
                        == crate::directory::new_title_body(
                            creation_content(params.title@, params.body@),
                            crate::directory::template_texts(templates@),
                            h,
                        )
                    &&& forall|i: int| 0 <= i < params.parents@.len() ==> final(dir).tree_view().links().contains_key(
                        (u, uuid_of(t, #[trigger] spec_parse_hrid(params.parents@[i]@)->Ok_0)),
                    )
                    &&& describes_details(final(dir).tree_view(), u, old(dir).config_view().digits, d)
                }
            },
            Err(e) => {
                let t = old(dir).tree_view();
                let kind = uppercase(trim(params.kind@));
                let ns = kept_segments(params.namespace@);
                let same = Directory::same_state(final(dir), old(dir));
                let checked = trim(params.kind@).len() > 0 && parents_parse(params.parents@)
                    && forall|i: int| 0 <= i < params.parents@.len() ==> t.has_hrid(#[trigger] spec_parse_hrid(params.parents@[i]@)->Ok_0);
                let valid = checked && valid_kind(kind) && kind_allowed(old(dir).config_view(), kind)
                    && forall|i: int| 0 <= i < ns.len() ==> valid_segment(#[trigger] ns[i]);
                ||| trim(params.kind@).len() == 0 && e.kind == ToolErrorKind::InvalidParams
                    && e.message@ == "`kind` is required"@ && same
                ||| trim(params.kind@).len() > 0 && !parents_parse(params.parents@) && e.kind == ToolErrorKind::InvalidParams
                    && e.message@ == "invalid HRID provided"@ && same
                ||| trim(params.kind@).len() > 0 && parents_parse(params.parents@) && (exists|i: int| 0 <= i < params.parents@.len()
                    && !t.has_hrid(#[trigger] spec_parse_hrid(params.parents@[i]@)->Ok_0)
                    && e.data@.len() == 1 && (e.data@[0].1 matches DetailValue::Text(v)
                        && v@ == spec_display(spec_parse_hrid(params.parents@[i]@)->Ok_0, old(dir).config_view().digits)))
                    && e.kind == ToolErrorKind::ResourceNotFound && e.message@ == "parent requirement not found"@ && same
                ||| checked && !valid_kind(kind) && e.kind == ToolErrorKind::InvalidParams
                    && e.message@ == "invalid kind or namespace"@ && same
                ||| checked && valid_kind(kind) && !kind_allowed(old(dir).config_view(), kind)
                    && e.kind == ToolErrorKind::InvalidParams && e.message@ == "kind is not allowed by configuration"@ && same
                ||| checked && valid_kind(kind) && kind_allowed(old(dir).config_view(), kind)
                    && (exists|i: int| 0 <= i < ns.len() && !valid_segment(#[trigger] ns[i]))
                    && e.kind == ToolErrorKind::InvalidParams && e.message@ == "invalid kind or namespace"@ && same
                ||| valid && e.kind == ToolErrorKind::InvalidParams && e.message@ == "requirement already exists"@ && same
                    && (exists|w: u128| #[trigger] t.reqs().contains_key(w) && e.data@.len() == 1
                        && (e.data@[0].1 matches DetailValue::Text(v) && v@ == "Duplicate requirement UUID: "@ + uuid_text(w)))
                ||| valid && e.kind == ToolErrorKind::InvalidParams && e.message@ == "cannot create link: would form a cycle"@
                    && exists|u: u128| #[trigger] final(dir).tree_view().reqs().contains_key(u) && !t.reqs().contains_key(u)
                        && exists|x: u128| #[trigger] t.links().contains_key((x, u))
            },
        },
{
    if trimmed(chars_of(params.kind.as_str()).as_slice()).len() == 0 {
        return Err(tool_error(ToolErrorKind::InvalidParams, "`kind` is required", "field", string_of("kind")));
    }
    let namespace = keep_segments(&params.namespace);
    let kind_trimmed = string_from_chars(trimmed(chars_of(params.kind.as_str()).as_slice()).as_slice());
    let kind = crate::config::to_uppercase(kind_trimmed.as_str());
    let content = creation_text(params.title.as_str(), params.body.as_str());
    let mut parents: Vec<Hrid> = Vec::new();
    let mut i: usize = 0;
    while i < params.parents.len()
        invariant
            i <= params.parents@.len(),
            parents@.len() == i,
            forall|j: int| 0 <= j < i ==> spec_parse_hrid(#[trigger] params.parents@[j]@) == Ok::<SpecHrid, ErrorView>(parents@[j]@),
        decreases params.parents@.len() - i,
    {
        let p = parse_hrid_param(params.parents[i].as_str())?;
        parents.push(p);
        i = i + 1;
    }
    let digits = dir.config().digits();
    proof {
        dir.lemma_tree_wf();
    }
    let mut k: usize = 0;
    while k < parents.len()
        invariant
            dir.wf(),
            k <= parents@.len(),
            parents@.len() == params.parents@.len(),
            forall|j: int| 0 <= j < parents@.len() ==> spec_parse_hrid(#[trigger] params.parents@[j]@) == Ok::<SpecHrid, ErrorView>(parents@[j]@),
            forall|j: int| 0 <= j < k ==> dir.tree_view().has_hrid(#[trigger] parents@[j]@),
        decreases parents@.len() - k,
    {
        proof {
            dir.lemma_tree_wf();
        }
        if dir.tree().uuid_for_hrid(&parents[k]).is_none() {
            proof {
                assert(spec_parse_hrid(params.parents@[k as int]@)->Ok_0 == parents@[k as int]@);
            }
            return Err(tool_error(
                ToolErrorKind::ResourceNotFound,
                "parent requirement not found",
                "parent",
                parents[k].to_string_with_digits(digits),
            ));
        }
        k = k + 1;
    }
    let ghost nsv = texts(namespace@);
    let ghost nsr = namespace@;
    proof {
        assert forall|i: int| 0 <= i < params.parents@.len() implies old(dir).tree_view().has_hrid(
            #[trigger] spec_parse_hrid(params.parents@[i]@)->Ok_0,
        ) by {
            assert(spec_parse_hrid(params.parents@[i]@) == Ok::<SpecHrid, ErrorView>(parents@[i]@));
        }
    }
    let added = if namespace.len() == 0 {
        dir.add_requirement(kind.as_str(), content, templates)
    } else {
        dir.add_requirement_with_namespace(namespace, kind.as_str(), content, templates)
    };
    let requirement = match added {
        Err(AddRequirementError::Hrid(_)) => {
            proof {
                if valid_kind(kind@) && nsr.len() > 0 {
                    let i = choose|i: int| 0 <= i < nsr.len() && !valid_segment(#[trigger] nsr[i]@);
                    assert(nsv[i] == nsr[i]@);
                    assert(!valid_segment(nsv[i]));
                }
            }
            return Err(tool_error(ToolErrorKind::InvalidParams, "invalid kind or namespace", "kind", kind));
        },
        Err(AddRequirementError::DisallowedKind { kind: k, allowed_kinds: _ }) => {
            return Err(tool_error(ToolErrorKind::InvalidParams, "kind is not allowed by configuration", "kind", k));
        },
        Err(AddRequirementError::Duplicate(e)) => {
            let reason = match e {
                TreeInsertError::DuplicateUuid { uuid } => {
                    let mut m = string_of("Duplicate requirement UUID: ");
                    push_str(&mut m, uuid_to_string(uuid).as_str());
                    m
                },
                TreeInsertError::DuplicateHrid { hrid: _, new_uuid: _, existing_uuid: _ } => {
                    proof {
                        assert(false);
                    }
                    String::new()
                },
            };
            return Err(tool_error(ToolErrorKind::InvalidParams, "requirement already exists", "reason", reason));
        },
        Ok(q) => q,
    };

    let ghost u = requirement.uuid;
    let ghost t1 = dir.tree_view();
    proof {
        let h = requirement.hrid@;
        let t = old(dir).tree_view();
        assert(h.namespace == kept_segments(params.namespace@));
        assert(h.kind == uppercase(trim(params.kind@)));
        assert(t.ids_below(h.namespace, h.kind, h.id));
        assert(h.id == 1 || t.has_id(h.namespace, h.kind, (h.id - 1) as nat));
        assert((requirement.title@, requirement.body@) == crate::directory::new_title_body(
            creation_content(params.title@, params.body@),
            crate::directory::template_texts(templates@),
            h,
        ));
        assert(!t.reqs().contains_key(u));
    }
    let mut j: usize = 0;
    while j < parents.len()
        invariant
            dir.wf(),
            j <= parents@.len(),
            dir.tree_view().reqs() == t1.reqs(),
            t1.reqs().contains_key(u),
            requirement.uuid == u,
            requirement.hrid@ == t1.reqs()[u].hrid,
            !old(dir).tree_view().reqs().contains_key(u),
            forall|k: (u128, u128)| #[trigger] dir.tree_view().links().contains_key(k) ==> old(dir).tree_view().links().contains_key(k)
                || (k.0 == u && old(dir).tree_view().reqs().contains_key(k.1)),
            forall|x: int| 0 <= x < j ==> dir.tree_view().links().contains_key(
                (u, uuid_of(old(dir).tree_view(), #[trigger] parents@[x]@)),
            ),
            forall|x: int| 0 <= x < parents@.len() ==> old(dir).tree_view().has_hrid(#[trigger] parents@[x]@),
            forall|w: u128| #[trigger] old(dir).tree_view().reqs().contains_key(w) ==> t1.reqs().contains_key(w)
                && t1.reqs()[w] == old(dir).tree_view().reqs()[w],
        decreases parents@.len() - j,
    {
        let ghost tc = dir.tree_view();
        proof {
            dir.lemma_tree_wf();
            let p = parents@[j as int]@;
            let po = uuid_of(old(dir).tree_view(), p);
            assert(old(dir).tree_view().reqs()[po].hrid == p);
            tc.lemma_hrid_unique(po, uuid_of(tc, p));
            tc.lemma_hrid_unique(u, uuid_of(tc, requirement.hrid@));
        }
        match dir.link_requirement(&requirement.hrid, &parents[j]) {
            Err(crate::tree::LinkRequirementError::ParentNotFound(_)) => {
                return Err(tool_error(
                    ToolErrorKind::ResourceNotFound,
                    "parent requirement not found",
                    "parent",
                    parents[j].to_string_with_digits(digits),
                ));
            },
            Err(crate::tree::LinkRequirementError::ChildNotFound(_)) => {
                return Err(tool_error(
                    ToolErrorKind::InternalError,
                    "child requirement missing after creation",
                    "child",
                    requirement.hrid.to_string_with_digits(digits),
                ));
            },
            Err(crate::tree::LinkRequirementError::WouldCreateCycle(message)) => {
                proof {
                    let p = parents@[j as int]@;
                    let po = uuid_of(old(dir).tree_view(), p);
                    let pu = uuid_of(tc, p);
                    let cu = uuid_of(tc, requirement.hrid@);
                    assert(tc.reaches(pu, cu));
                    let w = choose|w: Seq<u128>| crate::tree::is_walk(tc.links(), true, w) && w[0] == pu && w.last() == cu;
                    assert(pu == po);
                    assert(cu == u);
                    assert(pu != u);
                    let n = w.len() - 1;
                    assert(n >= 1);
                    let i = n - 1;
                    assert(crate::tree::step(tc.links(), true, w[i], w[i + 1]));
                    assert(w[i + 1] == u);
                    assert(tc.links().contains_key((w[i], u)));
                    assert(old(dir).tree_view().links().contains_key((w[i], u)));
                    assert(dir.tree_view().reqs().contains_key(u));
                }
                return Err(tool_error(ToolErrorKind::InvalidParams, "cannot create link: would form a cycle", "reason", message));
            },
            Ok(_) => {},
        }
        j = j + 1;
    }
    proof {
        dir.lemma_tree_wf();
    }
    match dir.tree().requirement(requirement.uuid) {
        None => {
            proof {
                assert(false);
            }
            Err(tool_error(
                ToolErrorKind::InternalError,
                "requirement could not be reloaded",
                "hrid",
                requirement.hrid.to_string_with_digits(digits),
            ))
        },
        Some(v) => {
            let d = details(dir, &v, digits);
            proof {
                let t = old(dir).tree_view();
                assert forall|x: int| 0 <= x < params.parents@.len() implies dir.tree_view().links().contains_key(
                    (u, uuid_of(t, #[trigger] spec_parse_hrid(params.parents@[x]@)->Ok_0)),
                ) by {
                    assert(spec_parse_hrid(params.parents@[x]@) == Ok::<SpecHrid, ErrorView>(parents@[x]@));
                    assert(dir.tree_view().links().contains_key((u, uuid_of(t, parents@[x]@))));
                }
                assert forall|x: int| 0 <= x < params.parents@.len() implies t.has_hrid(#[trigger] spec_parse_hrid(params.parents@[x]@)->Ok_0) by {
                    assert(spec_parse_hrid(params.parents@[x]@) == Ok::<SpecHrid, ErrorView>(parents@[x]@));
                }
                assert(dir.tree_view().reqs().contains_key(u));
            }
            Ok(d)
        },
    }
}


/// The configuration after `create_requirement_kind` with kind `k`: the
/// kind allowed (appended when new), and its description set, cleared (for
/// a blank one) or left as it was (for none).
pub open spec fn kind_created(c: ConfigView, k: Seq<char>, description: Option<String>) -> ConfigView {
    ConfigView {
        allowed_kinds: if c.allowed_kinds.contains(k) { c.allowed_kinds } else { c.allowed_kinds.push(k) },
        kind_metadata: match description {
            Some(d) => if trim(d@).len() == 0 {
                c.kind_metadata.remove(k)
            } else {
                c.kind_metadata.insert(k, Some(trim(d@)))
            },
            None => c.kind_metadata,
        },
        ..c
    }
}

/// `create_requirement_kind`: allows a kind (trimmed, in upper case) and
/// sets or clears its description in the configuration; the caller saves
/// the configuration and reopens the store.
pub fn create_requirement_kind(config: &mut Config, params: &CreateRequirementKindParams) -> (r: Result<
    CreateRequirementKindResponse,
    ToolError,
>)
    requires
        old(config).wf(),
    ensures
        final(config).wf(),
        match r {
            Err(e) => {
                &&& trim(params.kind@).len() == 0
                &&& e.kind == ToolErrorKind::InvalidParams
                &&& e.message@ == "`kind` is required"@
                &&& final(config).view() == old(config).view()
            },
            Ok(resp) => {
                let k = uppercase(trim(params.kind@));
                let c = final(config).view();
                &&& trim(params.kind@).len() > 0
                &&& resp.kind@ == k
                &&& resp.added == !old(config).view().allowed_kinds.contains(k)
                &&& c == kind_created(old(config).view(), k, params.description)
                &&& texts(resp.allowed_kinds@) == c.allowed_kinds
                &&& opt_view(resp.description) == if c.kind_metadata.contains_key(k) {
                    c.kind_metadata[k]
                } else {
                    None
                }
            },
        },
{
    let trimmed = string_from_chars(trimmed(chars_of(params.kind.as_str()).as_slice()).as_slice());
    if chars_of(trimmed.as_str()).len() == 0 {
        return Err(tool_error(ToolErrorKind::InvalidParams, "`kind` is required", "field", string_of("kind")));
    }
    let kind = crate::config::to_uppercase(trimmed.as_str());
    let added = config.add_kind(trimmed.as_str());
    match &params.description {
        Some(d) => config.set_kind_description(trimmed.as_str(), Some(copy_string(d))),
        None => {},
    }
    let description = match config.metadata_for_kind(kind.as_str()) {
        Some(m) => match &m.description {
            Some(d) => Some(copy_string(d)),
            None => None,
        },
        None => None,
    };
    let current = config.allowed_kinds();
    let allowed = crate::requirement::copy_strings(current);
    proof {
        assert(texts(allowed@) =~= tags_view(allowed@));
        assert(tags_view(current@) =~= current@.map_values(|k: String| k@));
    }
    Ok(CreateRequirementKindResponse { kind, description, added, allowed_kinds: allowed })
}

} // verus!
