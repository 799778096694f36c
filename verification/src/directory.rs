//! The requirement store: a [`Tree`] together with the configuration, the
//! file each requirement lives in (as components below the store's root),
//! the requirements whose files must be rewritten, and the files that must
//! be removed.
//!
//! Reading and writing files is the caller's part: it hands the store what
//! it loaded, asks it which files to write and which to remove, and reports
//! back what succeeded.

use vstd::prelude::*;

use crate::config::{Config, ConfigView, texts};
use crate::hrid::{
    Error as HridError, ErrorView, Hrid, KindString, NamespaceSegment, SpecHrid, segment_error_message, spec_display,
    spec_prefix, valid_kind, valid_segment, invalid_kind_message, error_message, zero_padded, zero_padded_decimal,
};
use crate::markdown::{hash_run, is_hash_run, trimmed_lines, trim_empty_lines};
use crate::paths::{construct_path_from_hrid, hrid_from_path, lexical_normal, normalised_path, path_components, path_hrid};
use crate::requirement::{Requirement, parents_view, tags_view};
use crate::sorting::{sort_hrids, strictly_sorted};
use crate::text::{
    chars_eq, chars_of, copy_string, find_char, join, push_str, slice_range, str_eq, string_from_chars,
    string_of, trim, trim_start, trimmed, trim_start_index, lemma_find_char, lemma_find_char_at,
};
use crate::tree::{
    LinkRequirementError, RenameError, ReqSpec, RequirementView, Tree, TreeInsertError, UnlinkError, content_fingerprint,
    cycle_message, is_walk, rename_error_message, renamed_links, refreshed_links, accepted_links, acyclic,
    SuspectLink, suspect_keys, with_parent_links, firsts, tags_update, text_update, unlink_error_message, updated,
};
use crate::requirement::ParentView;

verus! {

// ---------------------------------------------------------------------------
// Association lists keyed by UUID
// ---------------------------------------------------------------------------

/// No two entries share a key.
pub open spec fn keys_distinct<T>(s: Seq<(u128, T)>) -> bool {
    forall|i: int, j: int| 0 <= i < s.len() && 0 <= j < s.len() && i != j ==> s[i].0 != s[j].0
}

/// Some entry has key `u`.
pub open spec fn has_key<T>(s: Seq<(u128, T)>, u: u128) -> bool {
    exists|i: int| 0 <= i < s.len() && s[i].0 == u
}

/// The map an association list denotes.
pub open spec fn keyed<T>(s: Seq<(u128, T)>) -> Map<u128, T> {
    Map::new(|u: u128| has_key(s, u), |u: u128| s[choose|i: int| 0 <= i < s.len() && s[i].0 == u].1)
}

proof fn lemma_keyed_at<T>(s: Seq<(u128, T)>, i: int)
    requires
        keys_distinct(s),
        0 <= i < s.len(),
    ensures
        keyed(s).contains_key(s[i].0),
        keyed(s)[s[i].0] == s[i].1,
{
    assert(has_key(s, s[i].0));
    let j = choose|j: int| 0 <= j < s.len() && s[j].0 == s[i].0;
    assert(j == i);
}

/// A stored path as text components.
pub open spec fn path_text(p: (u128, Vec<String>)) -> (u128, Seq<Seq<char>>) {
    (p.0, texts(p.1@))
}

/// Stored paths as text.
pub open spec fn paths_text(s: Seq<(u128, Vec<String>)>) -> Seq<(u128, Seq<Seq<char>>)> {
    s.map_values(|p: (u128, Vec<String>)| path_text(p))
}

/// Component lists as text.
pub open spec fn comp_lists(s: Seq<Vec<String>>) -> Seq<Seq<Seq<char>>> {
    s.map_values(|v: Vec<String>| texts(v@))
}

/// Two component lists are equal.
fn same_path(a: &Vec<String>, b: &Vec<String>) -> (r: bool)
    ensures
        r == (texts(a@) == texts(b@)),
{
    if a.len() != b.len() {
        proof {
            assert(texts(a@).len() != texts(b@).len());
        }
        return false;
    }
    let mut i: usize = 0;
    while i < a.len()
        invariant
            a@.len() == b@.len(),
            i <= a@.len(),
            forall|j: int| 0 <= j < i ==> a@[j]@ == b@[j]@,
        decreases a@.len() - i,
    {
        if !str_eq(a[i].as_str(), b[i].as_str()) {
            proof {
                assert(texts(a@)[i as int] != texts(b@)[i as int]);
            }
            return false;
        }
        i = i + 1;
    }
    proof {
        assert(texts(a@) =~= texts(b@));
    }
    true
}

/// Copies a component list.
fn copy_path(p: &Vec<String>) -> (r: Vec<String>)
    ensures
        texts(r@) == texts(p@),
{
    let mut r: Vec<String> = Vec::new();
    let mut i: usize = 0;
    while i < p.len()
        invariant
            i <= p@.len(),
            r@.len() == i,
            forall|j: int| 0 <= j < i ==> #[trigger] r@[j]@ == p@[j]@,
        decreases p@.len() - i,
    {
        r.push(copy_string(&p[i]));
        i = i + 1;
    }
    assert(texts(r@) =~= texts(p@));
    r
}

// ---------------------------------------------------------------------------
// The store
// ---------------------------------------------------------------------------

/// Requirements with their configuration, file locations and pending work.
pub struct Directory {
    tree: Tree,
    config: Config,
    /// Requirements whose files must be rewritten.
    dirty: Vec<u128>,
    /// The file of each requirement that has one, below the root.
    paths: Vec<(u128, Vec<String>)>,
    /// Files to remove on the next flush.
    deletions: Vec<Vec<String>>,
}

impl Directory {
    /// The requirement tree.
    pub closed spec fn tree_view(&self) -> Tree {
        self.tree
    }

    /// The configuration.
    pub closed spec fn config_view(&self) -> ConfigView {
        self.config.view()
    }

    /// The requirements whose files must be rewritten.
    pub closed spec fn dirty_set(&self) -> Set<u128> {
        self.dirty@.to_set()
    }

    /// The recorded file of each requirement.
    pub closed spec fn path_map(&self) -> Map<u128, Seq<Seq<char>>> {
        keyed(paths_text(self.paths@))
    }

    /// The files to remove on the next flush.
    pub closed spec fn deletion_set(&self) -> Set<Seq<Seq<char>>> {
        comp_lists(self.deletions@).to_set()
    }

    /// Well-formedness of the parts.
    pub closed spec fn wf(&self) -> bool {
        &&& self.tree.wf()
        &&& self.config.wf()
        &&& keys_distinct(paths_text(self.paths@))
    }

    /// The canonical file of a requirement with HRID `h` under this
    /// configuration.
    pub open spec fn canonical(&self, h: SpecHrid) -> Seq<Seq<char>> {
        path_components(h, self.config_view().subfolders_are_namespaces, self.config_view().digits)
    }

    /// No requirement has the largest id, so a next id always exists.
    pub open spec fn ids_fit(&self) -> bool {
        forall|u: u128| #[trigger] self.tree_view().reqs().contains_key(u) ==> self.tree_view().reqs()[u].hrid.id
            < usize::MAX
    }

    /// A well-formed store has a well-formed tree.
    pub proof fn lemma_tree_wf(&self)
        requires
            self.wf(),
        ensures
            self.tree_view().wf(),
    {
    }

    /// The tree.
    pub fn tree(&self) -> (r: &Tree)
        ensures
            *r == self.tree_view(),
    {
        &self.tree
    }

    /// The configuration.
    pub fn config(&self) -> (r: &Config)
        ensures
            r.view() == self.config_view(),
            self.wf() ==> r.wf(),
    {
        &self.config
    }

    /// The canonical file, below the root, of the requirement with this HRID.
    pub fn canonical_path_for(&self, hrid: &Hrid) -> (r: Vec<String>)
        ensures
            texts(r@) == self.canonical(hrid@),
    {
        construct_path_from_hrid(hrid, self.config.subfolders_are_namespaces(), self.config.digits())
    }

    fn find_path(&self, uuid: u128) -> (r: Option<usize>)
        requires
            self.wf(),
        ensures
            match r {
                Some(i) => i < self.paths@.len() && self.paths@[i as int].0 == uuid
                    && self.path_map().contains_key(uuid) && self.path_map()[uuid] == texts(self.paths@[i as int].1@),
                None => !self.path_map().contains_key(uuid),
            },
    {
        let ghost pt = paths_text(self.paths@);
        let mut i: usize = 0;
        while i < self.paths.len()
            invariant
                i <= self.paths@.len(),
                pt == paths_text(self.paths@),
                keys_distinct(pt),
                forall|j: int| 0 <= j < i ==> self.paths@[j].0 != uuid,
            decreases self.paths@.len() - i,
        {
            if self.paths[i].0 == uuid {
                proof {
                    assert(pt[i as int] == path_text(self.paths@[i as int]));
                    lemma_keyed_at(pt, i as int);
                }
                return Some(i);
            }
            i = i + 1;
        }
        proof {
            if has_key(pt, uuid) {
                let j = choose|j: int| 0 <= j < pt.len() && pt[j].0 == uuid;
                assert(pt[j] == path_text(self.paths@[j]));
            }
        }
        None
    }

    /// Records `path` as the file of `uuid`.
    fn set_path(&mut self, uuid: u128, path: Vec<String>)
        requires
            old(self).wf(),
        ensures
            final(self).wf(),
            final(self).path_map() == old(self).path_map().insert(uuid, texts(path@)),
            final(self).tree == old(self).tree,
            final(self).config == old(self).config,
            final(self).dirty == old(self).dirty,
            final(self).deletions == old(self).deletions,
    {
        let ghost old_pt = paths_text(self.paths@);
        match self.find_path(uuid) {
            Some(i) => {
                self.paths.set(i, (uuid, path));
                proof {
                    let pt = paths_text(self.paths@);
                    assert(pt =~= old_pt.update(i as int, (uuid, texts(path@))));
                    assert forall|a: int, b: int| 0 <= a < pt.len() && 0 <= b < pt.len() && a != b implies pt[a].0
                        != pt[b].0 by {
                        assert(old_pt[a] == path_text(old(self).paths@[a]));
                        assert(old_pt[b] == path_text(old(self).paths@[b]));
                    }
                    assert forall|u: u128| #[trigger] keyed(pt).contains_key(u) == old(self).path_map().insert(
                        uuid,
                        texts(path@),
                    ).contains_key(u) by {
                        if has_key(pt, u) && u != uuid {
                            let j = choose|j: int| 0 <= j < pt.len() && pt[j].0 == u;
                            assert(old_pt[j] == path_text(old(self).paths@[j]));
                            assert(has_key(old_pt, u));
                        }
                        if has_key(old_pt, u) {
                            let j = choose|j: int| 0 <= j < old_pt.len() && old_pt[j].0 == u;
                            assert(old_pt[j] == path_text(old(self).paths@[j]));
                            assert(pt[j].0 == u);
                        }
                        if u == uuid {
                            assert(pt[i as int].0 == uuid);
                        }
                    }
                    assert(keys_distinct(pt));
                    assert forall|u: u128| #[trigger] keyed(pt).contains_key(u) implies keyed(pt)[u]
                        == old(self).path_map().insert(uuid, texts(path@))[u] by {
                        let j = choose|j: int| 0 <= j < pt.len() && pt[j].0 == u;
                        lemma_keyed_at(pt, j);
                        if u != uuid {
                            assert(j != i);
                            assert(pt[j] == old_pt[j]);
                            lemma_keyed_at(old_pt, j);
                        } else {
                            assert(pt[i as int].0 == uuid);
                            if j != i {
                                assert(pt[j].0 != pt[i as int].0);
                            }
                        }
                    }
                    assert(keyed(pt) =~= old(self).path_map().insert(uuid, texts(path@)));
                }
            },
            None => {
                self.paths.push((uuid, path));
                proof {
                    let pt = paths_text(self.paths@);
                    assert(pt =~= old_pt.push((uuid, texts(path@))));
                    assert forall|a: int, b: int| 0 <= a < pt.len() && 0 <= b < pt.len() && a != b implies pt[a].0
                        != pt[b].0 by {
                        if a < old_pt.len() {
                            assert(old_pt[a] == path_text(old(self).paths@[a]));
                        }
                        if b < old_pt.len() {
                            assert(old_pt[b] == path_text(old(self).paths@[b]));
                        }
                        if a == old_pt.len() && b < old_pt.len() {
                            assert(has_key(old_pt, pt[b].0));
                        }
                        if b == old_pt.len() && a < old_pt.len() {
                            assert(has_key(old_pt, pt[a].0));
                        }
                    }
                    assert forall|u: u128| #[trigger] keyed(pt).contains_key(u) == old(self).path_map().insert(
                        uuid,
                        texts(path@),
                    ).contains_key(u) by {
                        if has_key(pt, u) && u != uuid {
                            let j = choose|j: int| 0 <= j < pt.len() && pt[j].0 == u;
                            assert(j < old_pt.len());
                            assert(old_pt[j].0 == u);
                        }
                        if has_key(old_pt, u) {
                            let j = choose|j: int| 0 <= j < old_pt.len() && old_pt[j].0 == u;
                            assert(pt[j].0 == u);
                        }
                        if u == uuid {
                            assert(pt[old_pt.len() as int].0 == uuid);
                        }
                    }
                    assert forall|u: u128| #[trigger] keyed(pt).contains_key(u) implies keyed(pt)[u]
                        == old(self).path_map().insert(uuid, texts(path@))[u] by {
                        let j = choose|j: int| 0 <= j < pt.len() && pt[j].0 == u;
                        lemma_keyed_at(pt, j);
                        if u != uuid {
                            assert(j < old_pt.len());
                            lemma_keyed_at(old_pt, j);
                        }
                    }
                    assert(keyed(pt) =~= old(self).path_map().insert(uuid, texts(path@)));
                }
            },
        }
    }

    /// Forgets the file of `uuid`, handing it back.
    fn take_path(&mut self, uuid: u128) -> (r: Option<Vec<String>>)
        requires
            old(self).wf(),
        ensures
            final(self).wf(),
            r is Some == old(self).path_map().contains_key(uuid),
            r matches Some(p) ==> texts(p@) == old(self).path_map()[uuid],
            final(self).path_map() == old(self).path_map().remove(uuid),
            final(self).tree == old(self).tree,
            final(self).config == old(self).config,
            final(self).dirty == old(self).dirty,
            final(self).deletions == old(self).deletions,
    {
        let ghost old_pt = paths_text(self.paths@);
        match self.find_path(uuid) {
            None => {
                proof {
                    assert(old(self).path_map().remove(uuid) =~= old(self).path_map());
                }
                None
            },
            Some(i) => {
                let (_, p) = self.paths.remove(i);
                proof {
                    let pt = paths_text(self.paths@);
                    assert(pt =~= old_pt.remove(i as int));
                    assert forall|a: int, b: int| 0 <= a < pt.len() && 0 <= b < pt.len() && a != b implies pt[a].0
                        != pt[b].0 by {
                        let a0 = if a < i { a } else { a + 1 };
                        let b0 = if b < i { b } else { b + 1 };
                        assert(pt[a] == old_pt[a0]);
                        assert(pt[b] == old_pt[b0]);
                    }
                    assert forall|u: u128| #[trigger] keyed(pt).contains_key(u) == old(self).path_map().remove(
                        uuid,
                    ).contains_key(u) by {
                        if has_key(pt, u) {
                            let j = choose|j: int| 0 <= j < pt.len() && pt[j].0 == u;
                            let j0 = if j < i { j } else { j + 1 };
                            assert(old_pt[j0].0 == u);
                            assert(old_pt[i as int].0 == uuid);
                            assert(u != uuid);
                        }
                        if has_key(old_pt, u) && u != uuid {
                            let j = choose|j: int| 0 <= j < old_pt.len() && old_pt[j].0 == u;
                            assert(j != i);
                            let j1 = if j < i { j } else { j - 1 };
                            assert(pt[j1].0 == u);
                        }
                    }
                    assert forall|u: u128| #[trigger] keyed(pt).contains_key(u) implies keyed(pt)[u]
                        == old(self).path_map().remove(uuid)[u] by {
                        let j = choose|j: int| 0 <= j < pt.len() && pt[j].0 == u;
                        lemma_keyed_at(pt, j);
                        let j0 = if j < i { j } else { j + 1 };
                        lemma_keyed_at(old_pt, j0);
                    }
                    assert(keyed(pt) =~= old(self).path_map().remove(uuid));
                }
                Some(p)
            },
        }
    }

    /// Marks `uuid` as needing its file rewritten.
    fn mark_dirty(&mut self, uuid: u128)
        ensures
            final(self).dirty_set() == old(self).dirty_set().insert(uuid),
            final(self).tree == old(self).tree,
            final(self).config == old(self).config,
            final(self).paths == old(self).paths,
            final(self).deletions == old(self).deletions,
    {
        let mut i: usize = 0;
        while i < self.dirty.len()
            invariant
                i <= self.dirty@.len(),
                forall|j: int| 0 <= j < i ==> self.dirty@[j] != uuid,
            decreases self.dirty@.len() - i,
        {
            if self.dirty[i] == uuid {
                proof {
                    assert(self.dirty@.to_set().contains(uuid));
                    assert(self.dirty@.to_set().insert(uuid) =~= self.dirty@.to_set());
                }
                return;
            }
            i = i + 1;
        }
        let ghost before = self.dirty@;
        self.dirty.push(uuid);
        proof {
            assert(self.dirty@ == before.push(uuid));
            before.lemma_push_to_set_commute(uuid);
        }
    }

    /// Queues a file for removal.
    fn queue_deletion(&mut self, path: Vec<String>)
        ensures
            final(self).deletion_set() == old(self).deletion_set().insert(texts(path@)),
            final(self).tree == old(self).tree,
            final(self).config == old(self).config,
            final(self).paths == old(self).paths,
            final(self).dirty == old(self).dirty,
    {
        let mut i: usize = 0;
        while i < self.deletions.len()
            invariant
                i <= self.deletions@.len(),
                forall|j: int| 0 <= j < i ==> texts(self.deletions@[j]@) != texts(path@),
            decreases self.deletions@.len() - i,
        {
            if same_path(&self.deletions[i], &path) {
                proof {
                    assert(comp_lists(self.deletions@)[i as int] == texts(path@));
                    assert(self.deletion_set().insert(texts(path@)) =~= self.deletion_set());
                }
                return;
            }
            i = i + 1;
        }
        let ghost before = self.deletions@;
        self.deletions.push(path);
        proof {
            assert(comp_lists(self.deletions@) =~= comp_lists(before).push(texts(path@)));
            comp_lists(before).lemma_push_to_set_commute(texts(path@));
        }
    }

    /// The recorded file of the requirement with this HRID, if it has one.
    pub fn path_for(&self, hrid: &Hrid) -> (r: Option<Vec<String>>)
        requires
            self.wf(),
        ensures
            match r {
                Some(p) => exists|u: u128|
                    self.tree_view().reqs().contains_key(u) && self.tree_view().reqs()[u].hrid == hrid@
                        && self.path_map().contains_key(u) && #[trigger] self.path_map()[u] == texts(p@),
                None => forall|u: u128|
                    #[trigger] self.tree_view().reqs().contains_key(u) && self.tree_view().reqs()[u].hrid == hrid@
                        ==> !self.path_map().contains_key(u),
            },
    {
        match self.tree.uuid_for_hrid(hrid) {
            None => None,
            Some(u) => {
                match self.find_path(u) {
                    None => {
                        proof {
                            assert forall|v: u128|
                                #[trigger] self.tree_view().reqs().contains_key(v) && self.tree_view().reqs()[v].hrid
                                    == hrid@ implies !self.path_map().contains_key(v) by {
                                self.tree.lemma_hrid_unique(u, v);
                            }
                        }
                        None
                    },
                    Some(i) => Some(copy_path(&self.paths[i].1)),
                }
            },
        }
    }
}


// ---------------------------------------------------------------------------
// Adding requirements
// ---------------------------------------------------------------------------

/// The title and body that user-provided content gives a new requirement:
/// a first line that is a `#` heading gives the title (without its leading
/// `#` characters, trimmed) and the rest, without blank lines at either
/// end, is the body; content without such a heading is all body.
pub open spec fn split_content(c: Seq<char>) -> (Seq<char>, Seq<char>) {
    match find_char(c, '\n') {
        Some(n) => {
            let first = c.take(n);
            let ts = trim_start(first);
            if ts.len() > 0 && ts[0] == '#' {
                (trim(first.skip(hash_run(first))), trimmed_lines(c.skip(n + 1)))
            } else {
                (Seq::empty(), c)
            }
        },
        None => {
            let t = trim(c);
            if t.len() > 0 && t[0] == '#' {
                (trim(t.skip(hash_run(t))), Seq::empty())
            } else {
                (Seq::empty(), c)
            }
        },
    }
}

/// The content of the first template with this file name.
pub open spec fn template_named(ts: Seq<(Seq<char>, Seq<char>)>, name: Seq<char>) -> Option<Seq<char>>
    decreases ts.len(),
{
    if ts.len() == 0 {
        None
    } else if ts[0].0 == name {
        Some(ts[0].1)
    } else {
        template_named(ts.drop_first(), name)
    }
}

/// The template for a new requirement: the one named after its prefix
/// (namespace and kind), else the one named after its kind, else nothing.
pub open spec fn chosen_template(ts: Seq<(Seq<char>, Seq<char>)>, h: SpecHrid) -> Seq<char> {
    match template_named(ts, spec_prefix(h) + ".md"@) {
        Some(c) => c,
        None => match template_named(ts, h.kind + ".md"@) {
            Some(c) => c,
            None => Seq::empty(),
        },
    }
}

/// Templates as text: file name and content.
pub open spec fn template_texts(ts: Seq<(String, String)>) -> Seq<(Seq<char>, Seq<char>)> {
    ts.map_values(|t: (String, String)| (t.0@, t.1@))
}

/// The title and body of a new requirement with HRID `h`: from the content
/// when there is any, else the chosen template as body.
pub open spec fn new_title_body(content: Seq<char>, ts: Seq<(Seq<char>, Seq<char>)>, h: SpecHrid) -> (
    Seq<char>,
    Seq<char>,
) {
    if content.len() == 0 {
        (Seq::empty(), chosen_template(ts, h))
    } else {
        split_content(content)
    }
}

/// `kind` may be used under configuration `c`.
pub open spec fn kind_allowed(c: ConfigView, kind: Seq<char>) -> bool {
    c.allowed_kinds.len() == 0 || c.allowed_kinds.contains(kind)
}

/// The number of leading `#` characters.
fn leading_hashes(v: &[char]) -> (k: usize)
    ensures
        is_hash_run(v@, k as int),
        k == hash_run(v@),
{
    let mut k: usize = 0;
    while k < v.len() && v[k] == '#'
        invariant
            k <= v@.len(),
            forall|j: int| 0 <= j < k ==> #[trigger] v@[j] == '#',
        decreases v@.len() - k,
    {
        k = k + 1;
    }
    proof {
        let h = hash_run(v@);
        assert(is_hash_run(v@, k as int));
        assert(is_hash_run(v@, h));
        if h < k {
            assert(v@[h] == '#');
        }
        if h > k {
            assert(v@[k as int] == '#');
        }
    }
    k
}

/// Splits user-provided content into title and body.
fn split_title_and_body(content: String) -> (r: (String, String))
    ensures
        (r.0@, r.1@) == split_content(content@),
{
    let v = chars_of(content.as_str());
    let mut n: usize = 0;
    while n < v.len() && v[n] != '\n'
        invariant
            n <= v@.len(),
            forall|j: int| 0 <= j < n ==> v@[j] != '\n',
        decreases v@.len() - n,
    {
        n = n + 1;
    }
    if n < v.len() {
        proof {
            lemma_find_char_at(content@, '\n', n as int);
        }
        let first = slice_range(v.as_slice(), 0, n);
        let st = trim_start_index(first.as_slice());
        proof {
            assert(first@ =~= content@.take(n as int));
        }
        if st < first.len() && first[st] == '#' {
            let k = leading_hashes(first.as_slice());
            let after = slice_range(first.as_slice(), k, first.len());
            let title = string_from_chars(trimmed(after.as_slice()).as_slice());
            let rest = string_from_chars(slice_range(v.as_slice(), n + 1, v.len()).as_slice());
            let body = trim_empty_lines(rest.as_str());
            proof {
                assert(after@ =~= first@.skip(k as int));
                assert(rest@ =~= content@.skip(n + 1));
            }
            (title, body)
        } else {
            proof {
                assert(!(trim_start(first@).len() > 0 && trim_start(first@)[0] == '#'));
            }
            (String::new(), content)
        }
    } else {
        proof {
            lemma_find_char(content@, '\n');
            if let Some(i) = find_char(content@, '\n') {
                assert(v@[i] != '\n');
            }
        }
        let t = trimmed(v.as_slice());
        if t.len() > 0 && t[0] == '#' {
            let k = leading_hashes(t.as_slice());
            let after = slice_range(t.as_slice(), k, t.len());
            let title = string_from_chars(trimmed(after.as_slice()).as_slice());
            proof {
                assert(after@ =~= t@.skip(k as int));
            }
            (title, String::new())
        } else {
            (String::new(), content)
        }
    }
}

/// The content of the first template with this name.
fn find_template(templates: &[(String, String)], name: &str) -> (r: Option<String>)
    ensures
        match r {
            Some(c) => template_named(template_texts(templates@), name@) == Some(c@),
            None => template_named(template_texts(templates@), name@) is None,
        },
{
    let ghost ts = template_texts(templates@);
    let mut i: usize = 0;
    assert(ts.skip(0) =~= ts);
    while i < templates.len()
        invariant
            i <= templates@.len(),
            ts == template_texts(templates@),
            template_named(ts, name@) == template_named(ts.skip(i as int), name@),
        decreases templates@.len() - i,
    {
        proof {
            let rest = ts.skip(i as int);
            assert(rest[0] == (templates@[i as int].0@, templates@[i as int].1@));
            assert(rest.drop_first() =~= ts.skip(i + 1));
        }
        if str_eq(templates[i].0.as_str(), name) {
            return Some(copy_string(&templates[i].1));
        }
        i = i + 1;
    }
    proof {
        assert(ts.skip(i as int).len() == 0);
    }
    None
}

/// The template for a new requirement with this HRID.
fn template_for(templates: &[(String, String)], hrid: &Hrid) -> (r: String)
    ensures
        r@ == chosen_template(template_texts(templates@), hrid@),
{
    let mut name = hrid.prefix();
    push_str(&mut name, ".md");
    match find_template(templates, name.as_str()) {
        Some(c) => c,
        None => {
            let mut kind_name = string_of(hrid.kind());
            push_str(&mut kind_name, ".md");
            match find_template(templates, kind_name.as_str()) {
                Some(c) => c,
                None => String::new(),
            }
        },
    }
}

/// Joins strings with `, `.
pub(crate) fn join_comma(parts: &[String]) -> (r: String)
    ensures
        r@ == join(texts(parts@), ", "@),
{
    let mut r = String::new();
    let mut i: usize = 0;
    while i < parts.len()
        invariant
            i <= parts@.len(),
            r@ == join(texts(parts@).take(i as int), ", "@),
        decreases parts@.len() - i,
    {
        let ghost prev = texts(parts@).take(i as int);
        let ghost next = texts(parts@).take(i + 1);
        proof {
            assert(next.drop_last() =~= prev);
            assert(next.last() == parts@[i as int]@);
        }
        if i > 0 {
            push_str(&mut r, ", ");
        }
        push_str(&mut r, parts[i].as_str());
        proof {
            if i == 0 {
                assert(r@ =~= next[0]);
            }
        }
        i = i + 1;
    }
    proof {
        assert(texts(parts@).take(i as int) =~= texts(parts@));
    }
    r
}

/// Why a requirement could not be added.
#[derive(Debug)]
pub enum AddRequirementError {
    /// The kind or a namespace segment is invalid.
    Hrid(HridError),
    /// A requirement with this UUID or HRID already exists.
    Duplicate(TreeInsertError),
    /// The kind is not among the allowed kinds.
    DisallowedKind {
        kind: String,
        /// The allowed kinds, joined with `, `.
        allowed_kinds: String,
    },
}

impl Directory {
    /// Nothing observable changed between `a` and `b`.
    pub open spec fn same_state(a: &Directory, b: &Directory) -> bool {
        &&& a.tree_view() == b.tree_view()
        &&& a.config_view() == b.config_view()
        &&& a.dirty_set() == b.dirty_set()
        &&& a.path_map() == b.path_map()
        &&& a.deletion_set() == b.deletion_set()
    }

    /// Whether every requirement's id is below the largest id, so that the
    /// next id for any kind exists.
    pub fn check_ids_fit(&self) -> (r: bool)
        requires
            self.wf(),
        ensures
            r == self.ids_fit(),
    {
        let views = self.tree.iter();
        let mut i: usize = 0;
        proof {
            let ord = self.tree_view().order();
            assert forall|j: int| 0 <= j < views@.len() implies self.tree_view().describes(#[trigger] views@[j].uuid, views@[j]) by {
                assert(self.tree_view().describes(ord[j], views@[j]));
            }
            assert forall|u: u128| #[trigger] self.tree_view().reqs().contains_key(u) implies exists|j: int| 0 <= j < views@.len() && views@[j].uuid == u by {
                assert(ord.to_set().contains(u));
                let j = choose|j: int| 0 <= j < ord.len() && ord[j] == u;
                assert(self.tree_view().describes(ord[j], views@[j]));
            }
        }
        while i < views.len()
            invariant
                self.wf(),
                i <= views@.len(),
                views@.len() == self.tree_view().order().len(),
                forall|j: int| 0 <= j < views@.len() ==> self.tree_view().describes(#[trigger] views@[j].uuid, views@[j]),
                forall|u: u128| #[trigger] self.tree_view().reqs().contains_key(u) ==> exists|j: int| 0 <= j < views@.len() && views@[j].uuid == u,
                forall|j: int| 0 <= j < i ==> #[trigger] views@[j].hrid@.id < usize::MAX,
            decreases views@.len() - i,
        {
            if views[i].hrid.id() == usize::MAX {
                proof {
                    assert(self.tree_view().describes(views@[i as int].uuid, views@[i as int]));
                }
                return false;
            }
            i = i + 1;
        }
        proof {
            assert forall|u: u128| #[trigger] self.tree_view().reqs().contains_key(u) implies self.tree_view().reqs()[u].hrid.id < usize::MAX by {
                let j = choose|j: int| 0 <= j < views@.len() && views@[j].uuid == u;
                assert(self.tree_view().describes(views@[j].uuid, views@[j]));
            }
        }
        true
    }

    /// Adds a requirement of `kind` in `namespace`, with the next free id.
    /// Its title and body come from `content`, or from the first of
    /// `templates` (file name and content) that matches when `content` is
    /// empty.
    #[verifier::loop_isolation(false)]
    pub fn add_requirement_with_namespace(
        &mut self,
        namespace: Vec<String>,
        kind: &str,
        content: String,
        templates: &[(String, String)],
    ) -> (r: Result<Requirement, AddRequirementError>)
        requires
            old(self).wf(),
            old(self).ids_fit(),
        ensures
            final(self).wf(),
            match r {
                Err(AddRequirementError::Hrid(e)) => {
                    &&& Directory::same_state(final(self), old(self))
                    &&& ({
                        ||| !valid_kind(kind@) && e@ == ErrorView::Kind(kind@)
                        ||| valid_kind(kind@) && kind_allowed(old(self).config_view(), kind@)
                            && (exists|i: int| 0 <= i < namespace@.len() && !valid_segment(#[trigger] namespace@[i]@))
                            && e@ == ErrorView::Namespace(Seq::empty(), segment_error_message())
                    })
                },
                Err(AddRequirementError::DisallowedKind { kind: k, allowed_kinds: a }) => {
                    &&& Directory::same_state(final(self), old(self))
                    &&& valid_kind(kind@)
                    &&& !kind_allowed(old(self).config_view(), kind@)
                    &&& k@ == kind@
                    &&& a@ == join(old(self).config_view().allowed_kinds, ", "@)
                },
                Err(AddRequirementError::Duplicate(e)) => {
                    &&& Directory::same_state(final(self), old(self))
                    &&& valid_kind(kind@)
                    &&& kind_allowed(old(self).config_view(), kind@)
                    &&& forall|i: int| 0 <= i < namespace@.len() ==> valid_segment(#[trigger] namespace@[i]@)
                    &&& e matches TreeInsertError::DuplicateUuid { uuid } && old(self).tree_view().reqs().contains_key(uuid)
                },
                Ok(req) => {
                    let h = req.hrid@;
                    &&& valid_kind(kind@)
                    &&& kind_allowed(old(self).config_view(), kind@)
                    &&& forall|i: int| 0 <= i < namespace@.len() ==> valid_segment(#[trigger] namespace@[i]@)
                    &&& h.namespace == texts(namespace@)
                    &&& h.kind == kind@
                    &&& h.id >= 1
                    &&& old(self).tree_view().ids_below(h.namespace, h.kind, h.id)
                    &&& (h.id == 1 || old(self).tree_view().has_id(h.namespace, h.kind, (h.id - 1) as nat))
                    &&& (req.title@, req.body@) == new_title_body(content@, template_texts(templates@), h)
                    &&& req.tags@.len() == 0
                    &&& req.parents@.len() == 0
                    &&& !old(self).tree_view().reqs().contains_key(req.uuid)
                    &&& final(self).tree_view().reqs() == old(self).tree_view().reqs().insert(
                        req.uuid,
                        ReqSpec { hrid: h, title: req.title@, body: req.body@, tags: Seq::empty(), created: req.created },
                    )
                    &&& final(self).tree_view().links() == old(self).tree_view().links()
                    &&& final(self).tree_view().nodes() == old(self).tree_view().nodes().insert(req.uuid)
                    &&& final(self).config_view() == old(self).config_view()
                    &&& final(self).dirty_set() == old(self).dirty_set().insert(req.uuid)
                    &&& final(self).path_map() == old(self).path_map().insert(req.uuid, old(self).canonical(h))
                    &&& final(self).deletion_set() == old(self).deletion_set()
                },
            },
    {
        let kind_string = match KindString::new(string_of(kind)) {
            Err(e) => {
                return Err(AddRequirementError::Hrid(HridError::Kind(e)));
            },
            Ok(k) => k,
        };
        if !self.config.is_kind_allowed(kind) {
            let allowed_kinds = join_comma(self.config.allowed_kinds());
            return Err(AddRequirementError::DisallowedKind { kind: string_of(kind), allowed_kinds });
        }
        let mut segments: Vec<NamespaceSegment> = Vec::new();
        let mut i: usize = 0;
        while i < namespace.len()
            invariant
                i <= namespace@.len(),
                segments@.len() == i,
                forall|j: int| 0 <= j < i ==> #[trigger] segments@[j]@ == namespace@[j]@,
                forall|j: int| 0 <= j < i ==> valid_segment(#[trigger] namespace@[j]@),
            decreases namespace@.len() - i,
        {
            match NamespaceSegment::new(copy_string(&namespace[i])) {
                Err(msg) => {
                    return Err(AddRequirementError::Hrid(HridError::Namespace(String::new(), msg)));
                },
                Ok(seg) => {
                    segments.push(seg);
                },
            }
            i = i + 1;
        }
        proof {
            assert(segments@.map_values(|s: NamespaceSegment| s@) =~= texts(namespace@));
            assert(self.tree == old(self).tree);
            assert(old(self).ids_fit());
            let ghost nsv = segments@.map_values(|s: NamespaceSegment| s@);
            assert forall|u: u128|
                self.tree.reqs().contains_key(u) && #[trigger] self.tree.reqs()[u].hrid.namespace == nsv
                    && self.tree.reqs()[u].hrid.kind == kind_string@ implies self.tree.reqs()[u].hrid.id
                < usize::MAX by {
                assert(old(self).tree_view().reqs().contains_key(u));
            }
            assert(self.tree.ids_below(nsv, kind_string@, usize::MAX as nat));
        }
        let id = self.tree.next_index(segments.as_slice(), &kind_string);
        let hrid = Hrid::new_with_namespace(segments, kind_string, id);
        let (title, body) = if chars_of(content.as_str()).len() == 0 {
            (String::new(), template_for(templates, &hrid))
        } else {
            split_title_and_body(content)
        };
        let requirement = Requirement::new(hrid, title, body);
        let stored = requirement.clone();
        match self.tree.insert(stored) {
            Err(e) => {
                proof {
                    if let TreeInsertError::DuplicateHrid { hrid: _, new_uuid: _, existing_uuid } = e {
                        assert(self.tree_view().reqs()[existing_uuid].hrid == requirement.hrid@);
                        assert(self.tree_view().ids_below(requirement.hrid@.namespace, requirement.hrid@.kind, id as nat));
                        assert(false);
                    }
                }
                return Err(AddRequirementError::Duplicate(e));
            },
            Ok(()) => {},
        }
        proof {
            assert(self.tree_view().nodes() =~= old(self).tree_view().nodes().insert(requirement.uuid));
        }
        let path = self.canonical_path_for(&requirement.hrid);
        self.set_path(requirement.uuid, path);
        self.mark_dirty(requirement.uuid);
        proof {
            let h = requirement.hrid@;
            assert(h.namespace == texts(namespace@));
            assert(h.kind == kind@);
            assert(old(self).tree_view().ids_below(h.namespace, h.kind, h.id));
            assert((requirement.title@, requirement.body@) == new_title_body(content@, template_texts(templates@), h));
            assert(tags_view(requirement.tags@) =~= Seq::<Seq<char>>::empty());
            assert(self.tree_view().reqs() == old(self).tree_view().reqs().insert(
                        requirement.uuid,
                        ReqSpec { hrid: h, title: requirement.title@, body: requirement.body@, tags: Seq::empty(), created: requirement.created },
                    ));
            assert(self.path_map() == old(self).path_map().insert(requirement.uuid, old(self).canonical(h)));
        }
        Ok(requirement)
    }

    /// Adds a requirement of `kind` without a namespace; see
    /// [`Directory::add_requirement_with_namespace`].
    pub fn add_requirement(
        &mut self,
        kind: &str,
        content: String,
        templates: &[(String, String)],
    ) -> (r: Result<Requirement, AddRequirementError>)
        requires
            old(self).wf(),
            old(self).ids_fit(),
        ensures
            final(self).wf(),
            match r {
                Err(AddRequirementError::Hrid(e)) => {
                    &&& Directory::same_state(final(self), old(self))
                    &&& !valid_kind(kind@)
                    &&& e@ == ErrorView::Kind(kind@)
                },
                Err(AddRequirementError::DisallowedKind { kind: k, allowed_kinds: a }) => {
                    &&& Directory::same_state(final(self), old(self))
                    &&& valid_kind(kind@)
                    &&& !kind_allowed(old(self).config_view(), kind@)
                    &&& k@ == kind@
                    &&& a@ == join(old(self).config_view().allowed_kinds, ", "@)
                },
                Err(AddRequirementError::Duplicate(e)) => {
                    &&& Directory::same_state(final(self), old(self))
                    &&& valid_kind(kind@)
                    &&& kind_allowed(old(self).config_view(), kind@)
                    &&& e matches TreeInsertError::DuplicateUuid { uuid } && old(self).tree_view().reqs().contains_key(uuid)
                },
                Ok(req) => {
                    let h = req.hrid@;
                    &&& valid_kind(kind@)
                    &&& kind_allowed(old(self).config_view(), kind@)
                    &&& h.namespace.len() == 0
                    &&& h.kind == kind@
                    &&& h.id >= 1
                    &&& old(self).tree_view().ids_below(h.namespace, h.kind, h.id)
                    &&& (h.id == 1 || old(self).tree_view().has_id(h.namespace, h.kind, (h.id - 1) as nat))
                    &&& (req.title@, req.body@) == new_title_body(content@, template_texts(templates@), h)
                    &&& req.tags@.len() == 0
                    &&& req.parents@.len() == 0
                    &&& !old(self).tree_view().reqs().contains_key(req.uuid)
                    &&& final(self).tree_view().reqs() == old(self).tree_view().reqs().insert(
                        req.uuid,
                        ReqSpec { hrid: h, title: req.title@, body: req.body@, tags: Seq::empty(), created: req.created },
                    )
                    &&& final(self).tree_view().links() == old(self).tree_view().links()
                    &&& final(self).tree_view().nodes() == old(self).tree_view().nodes().insert(req.uuid)
                    &&& final(self).config_view() == old(self).config_view()
                    &&& final(self).dirty_set() == old(self).dirty_set().insert(req.uuid)
                    &&& final(self).path_map() == old(self).path_map().insert(req.uuid, old(self).canonical(h))
                    &&& final(self).deletion_set() == old(self).deletion_set()
                },
            },
    {
        let r = self.add_requirement_with_namespace(Vec::new(), kind, content, templates);
        proof {
            assert(texts(Seq::<String>::empty()) =~= Seq::<Seq<char>>::empty());
        }
        r
    }
}


// ---------------------------------------------------------------------------
// Editing requirements and links
// ---------------------------------------------------------------------------

/// The files that removing the requirements `s` queues for deletion: the
/// recorded file of each of them that has one.
pub open spec fn queued_paths(pm: Map<u128, Seq<Seq<char>>>, s: Set<u128>) -> Set<Seq<Seq<char>>> {
    Set::new(|p: Seq<Seq<char>>| exists|w: u128| s.contains(w) && pm.contains_key(w) && #[trigger] pm[w] == p)
}

/// The UUID of the requirement with HRID `h` (meaningful when there is one).
pub open spec fn uuid_of(t: Tree, h: SpecHrid) -> u128 {
    choose|u: u128| t.reqs().contains_key(u) && #[trigger] t.reqs()[u].hrid == h
}

/// Why an edit of the store was refused.
#[derive(Debug)]
pub enum DirectoryError {
    /// No requirement has this HRID.
    NotFound(Hrid),
    /// The requirement still has children.
    HasChildren { hrid: Hrid, children: usize },
    /// The kind is not among the allowed kinds.
    DisallowedKind(String),
    /// The link to remove does not exist (or an end of it is missing).
    Unlink(UnlinkError),
    /// The rename was refused.
    Rename(RenameError),
    /// No HRID could be read from the path.
    InvalidPath(String),
}

impl DirectoryError {
    /// The error message, rendering HRIDs with `digits` digits.
    pub fn to_string(&self, digits: usize) -> (r: String)
        ensures
            r@ == match self {
                DirectoryError::NotFound(h) => "Requirement "@ + spec_display(h@, digits as nat) + " not found"@,
                DirectoryError::HasChildren { hrid, children } => "Cannot delete "@ + spec_display(
                    hrid@,
                    digits as nat,
                ) + ": requirement has "@ + zero_padded(*children as nat, 0) + " children"@,
                DirectoryError::DisallowedKind(k) => "Kind '"@ + k@ + "' is not allowed by configuration"@,
                DirectoryError::Unlink(e) => unlink_error_message(*e),
                DirectoryError::Rename(e) => rename_error_message(*e),
                DirectoryError::InvalidPath(m) => "Failed to parse HRID from path: "@ + m@,
            },
    {
        match self {
            DirectoryError::NotFound(h) => {
                let mut r = string_of("Requirement ");
                push_str(&mut r, h.to_string_with_digits(digits).as_str());
                push_str(&mut r, " not found");
                r
            },
            DirectoryError::HasChildren { hrid, children } => {
                let mut r = string_of("Cannot delete ");
                push_str(&mut r, hrid.to_string_with_digits(digits).as_str());
                push_str(&mut r, ": requirement has ");
                push_str(&mut r, string_from_chars(zero_padded_decimal(*children, 0).as_slice()).as_str());
                push_str(&mut r, " children");
                r
            },
            DirectoryError::DisallowedKind(k) => {
                let mut r = string_of("Kind '");
                push_str(&mut r, k.as_str());
                push_str(&mut r, "' is not allowed by configuration");
                r
            },
            DirectoryError::Unlink(e) => e.to_string(),
            DirectoryError::Rename(e) => e.to_string(),
            DirectoryError::InvalidPath(m) => {
                let mut r = string_of("Failed to parse HRID from path: ");
                push_str(&mut r, m.as_str());
                r
            },
        }
    }
}

/// The outcome of reviewing a suspect link.
#[derive(Debug, Clone, Copy, PartialEq, Eq, Structural)]
pub enum AcceptResult {
    /// The recorded fingerprint was refreshed.
    Updated,
    /// The recorded fingerprint was already current.
    AlreadyUpToDate,
}

/// Why a suspect link could not be reviewed.
#[derive(Debug)]
pub enum AcceptSuspectLinkError {
    /// No requirement has the child HRID.
    ChildNotFound(Hrid),
    /// No requirement has the parent HRID.
    ParentNotFound(Hrid),
    /// The child does not link to the parent.
    LinkNotFound { child: Hrid, parent: Hrid },
}

impl AcceptSuspectLinkError {
    /// The error message.
    pub fn to_string(&self) -> (r: String)
        ensures
            r@ == match self {
                AcceptSuspectLinkError::ChildNotFound(h) => "child requirement "@ + spec_display(h@, 3) + " not found"@,
                AcceptSuspectLinkError::ParentNotFound(h) => "parent requirement "@ + spec_display(h@, 3) + " not found"@,
                AcceptSuspectLinkError::LinkNotFound { child, parent } => "link from "@ + spec_display(child@, 3)
                    + " to "@ + spec_display(parent@, 3) + " not found"@,
            },
    {
        match self {
            AcceptSuspectLinkError::ChildNotFound(h) => {
                let mut r = string_of("child requirement ");
                push_str(&mut r, h.to_string_with_digits(3).as_str());
                push_str(&mut r, " not found");
                r
            },
            AcceptSuspectLinkError::ParentNotFound(h) => {
                let mut r = string_of("parent requirement ");
                push_str(&mut r, h.to_string_with_digits(3).as_str());
                push_str(&mut r, " not found");
                r
            },
            AcceptSuspectLinkError::LinkNotFound { child, parent } => {
                let mut r = string_of("link from ");
                push_str(&mut r, child.to_string_with_digits(3).as_str());
                push_str(&mut r, " to ");
                push_str(&mut r, parent.to_string_with_digits(3).as_str());
                push_str(&mut r, " not found");
                r
            },
        }
    }
}

/// The HRIDs of some requirements.
pub open spec fn hrids_of(t: Tree, us: Set<u128>) -> Set<SpecHrid> {
    Set::new(|h: SpecHrid| exists|u: u128| us.contains(u) && t.reqs().contains_key(u) && #[trigger] t.reqs()[u].hrid == h)
}

/// The HRIDs in a list, as values.
pub open spec fn hrid_set(v: Seq<Hrid>) -> Set<SpecHrid> {
    v.map_values(|h: Hrid| h@).to_set()
}

impl Directory {
    /// The HRIDs of the requirements among `uuids`, in their order.
    pub fn hrids_for(&self, uuids: &Vec<u128>) -> (r: Vec<Hrid>)
        requires
            self.wf(),
        ensures
            hrid_set(r@) == hrids_of(self.tree_view(), uuids@.to_set()),
            r@.len() <= uuids@.len(),
    {
        let mut r: Vec<Hrid> = Vec::new();
        let mut i: usize = 0;
        while i < uuids.len()
            invariant
                self.wf(),
                i <= uuids@.len(),
                r@.len() <= i,
                hrid_set(r@) == hrids_of(self.tree_view(), uuids@.take(i as int).to_set()),
            decreases uuids@.len() - i,
        {
            let ghost before = r@;
            let ghost t = self.tree_view();
            proof {
                assert(uuids@.take(i + 1) =~= uuids@.take(i as int).push(uuids@[i as int]));
                uuids@.take(i as int).lemma_push_to_set_commute(uuids@[i as int]);
            }
            match self.tree.hrid(uuids[i]) {
                Some(h) => {
                    r.push(h.clone());
                    proof {
                        assert(r@.map_values(|x: Hrid| x@) =~= before.map_values(|x: Hrid| x@).push(h@));
                        before.map_values(|x: Hrid| x@).lemma_push_to_set_commute(h@);
                        assert(hrid_set(r@) =~= hrids_of(t, uuids@.take(i + 1).to_set()));
                    }
                },
                None => {
                    proof {
                        assert(hrid_set(r@) =~= hrids_of(t, uuids@.take(i + 1).to_set()));
                    }
                },
            }
            i = i + 1;
        }
        proof {
            assert(uuids@.take(i as int) =~= uuids@);
        }
        r
    }

    /// The HRIDs of the children of the requirement with this HRID (none
    /// when there is no such requirement).
    pub fn children_of(&self, hrid: &Hrid) -> (r: Vec<Hrid>)
        requires
            self.wf(),
        ensures
            self.tree_view().has_hrid(hrid@) ==> hrid_set(r@) == hrids_of(
                self.tree_view(),
                self.tree_view().children_of(uuid_of(self.tree_view(), hrid@)),
            ),
            !self.tree_view().has_hrid(hrid@) ==> r@.len() == 0,
    {
        match self.tree.uuid_for_hrid(hrid) {
            None => Vec::new(),
            Some(u) => {
                proof {
                    let w = uuid_of(self.tree_view(), hrid@);
                    self.tree.lemma_hrid_unique(u, w);
                }
                let cs = self.tree.children(u);
                self.hrids_for(&cs)
            },
        }
    }

    /// The HRIDs of the transitive parents of the requirement with this
    /// HRID, each once and in ascending order (none when there is no such
    /// requirement).
    pub fn ancestors_of(&self, hrid: &Hrid) -> (r: Vec<Hrid>)
        requires
            self.wf(),
        ensures
            self.tree_view().has_hrid(hrid@) ==> hrid_set(r@) == hrids_of(
                self.tree_view(),
                self.tree_view().ancestors(uuid_of(self.tree_view(), hrid@)),
            ),
            strictly_sorted(r@),
            !self.tree_view().has_hrid(hrid@) ==> r@.len() == 0,
    {
        match self.tree.uuid_for_hrid(hrid) {
            None => Vec::new(),
            Some(u) => {
                proof {
                    let w = uuid_of(self.tree_view(), hrid@);
                    self.tree.lemma_hrid_unique(u, w);
                }
                let us = self.tree.ancestors_of(u);
                sort_hrids(self.hrids_for(&us))
            },
        }
    }

    /// The HRIDs of the transitive children of the requirement with this
    /// HRID, each once and in ascending order (none when there is no such
    /// requirement).
    pub fn descendants_of(&self, hrid: &Hrid) -> (r: Vec<Hrid>)
        requires
            self.wf(),
        ensures
            self.tree_view().has_hrid(hrid@) ==> hrid_set(r@) == hrids_of(
                self.tree_view(),
                self.tree_view().descendants(uuid_of(self.tree_view(), hrid@)),
            ),
            strictly_sorted(r@),
            !self.tree_view().has_hrid(hrid@) ==> r@.len() == 0,
    {
        match self.tree.uuid_for_hrid(hrid) {
            None => Vec::new(),
            Some(u) => {
                proof {
                    let w = uuid_of(self.tree_view(), hrid@);
                    self.tree.lemma_hrid_unique(u, w);
                }
                let us = self.tree.descendants_of(u);
                sort_hrids(self.hrids_for(&us))
            },
        }
    }

    /// Updates the title, body and tags of the requirement with this HRID;
    /// fields given as `None` are kept. `true` when anything changed, in
    /// which case its file must be rewritten.
    pub fn update_requirement(
        &mut self,
        hrid: &Hrid,
        title: Option<String>,
        body: Option<String>,
        tags: Option<Vec<String>>,
    ) -> (r: Result<bool, DirectoryError>)
        requires
            old(self).wf(),
        ensures
            final(self).wf(),
            match r {
                Err(e) => {
                    &&& e matches DirectoryError::NotFound(h) && h@ == hrid@
                    &&& !old(self).tree_view().has_hrid(hrid@)
                    &&& Directory::same_state(final(self), old(self))
                },
                Ok(changed) => {
                    let u = uuid_of(old(self).tree_view(), hrid@);
                    let o = old(self).tree_view().reqs()[u];
                    let n = ReqSpec {
                        hrid: o.hrid,
                        title: updated(text_update(title), o.title),
                        body: updated(text_update(body), o.body),
                        tags: updated(tags_update(tags), o.tags),
                        created: o.created,
                    };
                    &&& old(self).tree_view().has_hrid(hrid@)
                    &&& final(self).tree_view().reqs() == old(self).tree_view().reqs().insert(u, n)
                    &&& final(self).tree_view().links() == old(self).tree_view().links()
                    &&& final(self).tree_view().nodes() == old(self).tree_view().nodes()
                    &&& changed == (n != o)
                    &&& final(self).dirty_set() == if changed {
                        old(self).dirty_set().insert(u)
                    } else {
                        old(self).dirty_set()
                    }
                    &&& final(self).config_view() == old(self).config_view()
                    &&& final(self).path_map() == old(self).path_map()
                    &&& final(self).deletion_set() == old(self).deletion_set()
                },
            },
    {
        let u = match self.tree.uuid_for_hrid(hrid) {
            None => {
                return Err(DirectoryError::NotFound(hrid.clone()));
            },
            Some(u) => u,
        };
        proof {
            let w = uuid_of(self.tree_view(), hrid@);
            self.tree.lemma_hrid_unique(u, w);
        }
        match self.tree.update_requirement_content(u, title, body, tags) {
            None => {
                proof {
                    assert(false);
                }
                Err(DirectoryError::NotFound(hrid.clone()))
            },
            Some(changed) => {
                if changed {
                    self.mark_dirty(u);
                } else {
                    proof {
                        assert(self.dirty_set() == old(self).dirty_set());
                    }
                }
                Ok(changed)
            },
        }
    }

    /// Links the requirement with HRID `child` to the one with HRID
    /// `parent` (see [`Tree::link_requirement`]) and marks the child's file
    /// for rewriting; hands back the child as it now is.
    pub fn link_requirement(&mut self, child: &Hrid, parent: &Hrid) -> (r: Result<RequirementView, LinkRequirementError>)
        requires
            old(self).wf(),
        ensures
            final(self).wf(),
            match r {
                Err(LinkRequirementError::ChildNotFound(h)) => {
                    &&& h@ == child@
                    &&& !old(self).tree_view().has_hrid(child@)
                    &&& Directory::same_state(final(self), old(self))
                },
                Err(LinkRequirementError::ParentNotFound(h)) => {
                    &&& h@ == parent@
                    &&& old(self).tree_view().has_hrid(child@)
                    &&& !old(self).tree_view().has_hrid(parent@)
                    &&& Directory::same_state(final(self), old(self))
                },
                Err(LinkRequirementError::WouldCreateCycle(_)) => {
                    &&& old(self).tree_view().has_hrid(child@)
                    &&& old(self).tree_view().has_hrid(parent@)
                    &&& old(self).tree_view().reaches(
                        uuid_of(old(self).tree_view(), parent@),
                        uuid_of(old(self).tree_view(), child@),
                    )
                    &&& Directory::same_state(final(self), old(self))
                },
                Ok(v) => {
                    let cu = uuid_of(old(self).tree_view(), child@);
                    let pu = uuid_of(old(self).tree_view(), parent@);
                    &&& old(self).tree_view().has_hrid(child@)
                    &&& old(self).tree_view().has_hrid(parent@)
                    &&& !old(self).tree_view().reaches(pu, cu)
                    &&& final(self).tree_view().reqs() == old(self).tree_view().reqs()
                    &&& final(self).tree_view().nodes() == old(self).tree_view().nodes()
                    &&& final(self).tree_view().links() == old(self).tree_view().links().insert(
                        (cu, pu),
                        ParentView { hrid: parent@, fingerprint: content_fingerprint(old(self).tree_view().reqs()[pu]) },
                    )
                    &&& v.uuid == cu
                    &&& final(self).tree_view().describes(cu, v)
                    &&& final(self).dirty_set() == old(self).dirty_set().insert(cu)
                    &&& final(self).config_view() == old(self).config_view()
                    &&& final(self).path_map() == old(self).path_map()
                    &&& final(self).deletion_set() == old(self).deletion_set()
                },
            },
    {
        let outcome = match self.tree.link_requirement(child, parent) {
            Err(e) => {
                proof {
                    if let LinkRequirementError::WouldCreateCycle(msg) = &e {
                        let cu = uuid_of(old(self).tree_view(), child@);
                        let pu = uuid_of(old(self).tree_view(), parent@);
                        assert(old(self).tree_view().reqs()[cu].hrid == child@);
                        assert(old(self).tree_view().reqs()[pu].hrid == parent@);
                        let w = choose|w: Seq<u128>|
                            is_walk(old(self).tree_view().links(), true, w) && w[0] == pu && w.last() == cu
                                && msg@ == #[trigger] cycle_message(old(self).tree_view().reqs(), w, cu);
                        assert(old(self).tree_view().reaches(pu, cu));
                    }
                }
                return Err(e);
            },
            Ok(o) => o,
        };
        proof {
            let cu = uuid_of(old(self).tree_view(), child@);
            let pu = uuid_of(old(self).tree_view(), parent@);
            old(self).tree.lemma_hrid_unique(outcome.child_uuid, cu);
            old(self).tree.lemma_hrid_unique(outcome.parent_uuid, pu);
        }
        self.mark_dirty(outcome.child_uuid);
        match self.tree.requirement(outcome.child_uuid) {
            Some(v) => Ok(v),
            None => {
                proof {
                    assert(false);
                }
                Err(LinkRequirementError::ChildNotFound(outcome.child_hrid))
            },
        }
    }

    /// Removes the link from the requirement with HRID `child` to the one
    /// with HRID `parent` and marks the child's file for rewriting.
    pub fn unlink_requirement(&mut self, child: &Hrid, parent: &Hrid) -> (r: Result<(), DirectoryError>)
        requires
            old(self).wf(),
        ensures
            final(self).wf(),
            match r {
                Err(DirectoryError::Unlink(UnlinkError::ChildNotFound(h))) => {
                    &&& h@ == child@
                    &&& !old(self).tree_view().has_hrid(child@)
                    &&& Directory::same_state(final(self), old(self))
                },
                Err(DirectoryError::Unlink(UnlinkError::ParentNotFound(h))) => {
                    &&& h@ == parent@
                    &&& old(self).tree_view().has_hrid(child@)
                    &&& !old(self).tree_view().has_hrid(parent@)
                    &&& Directory::same_state(final(self), old(self))
                },
                Err(DirectoryError::Unlink(UnlinkError::NotLinked { child: c, parent: p })) => {
                    &&& c@ == child@
                    &&& p@ == parent@
                    &&& old(self).tree_view().has_hrid(child@)
                    &&& old(self).tree_view().has_hrid(parent@)
                    &&& !old(self).tree_view().links().contains_key(
                        (uuid_of(old(self).tree_view(), child@), uuid_of(old(self).tree_view(), parent@)),
                    )
                    &&& Directory::same_state(final(self), old(self))
                },
                Err(_) => false,
                Ok(()) => {
                    let cu = uuid_of(old(self).tree_view(), child@);
                    let pu = uuid_of(old(self).tree_view(), parent@);
                    &&& old(self).tree_view().has_hrid(child@)
                    &&& old(self).tree_view().has_hrid(parent@)
                    &&& old(self).tree_view().links().contains_key((cu, pu))
                    &&& final(self).tree_view().reqs() == old(self).tree_view().reqs()
                    &&& final(self).tree_view().nodes() == old(self).tree_view().nodes()
                    &&& final(self).tree_view().links() == old(self).tree_view().links().remove((cu, pu))
                    &&& final(self).dirty_set() == old(self).dirty_set().insert(cu)
                    &&& final(self).config_view() == old(self).config_view()
                    &&& final(self).path_map() == old(self).path_map()
                    &&& final(self).deletion_set() == old(self).deletion_set()
                },
            },
    {
        match self.tree.unlink_requirement(child, parent) {
            Err(e) => {
                proof {
                    if let UnlinkError::NotLinked { child: _, parent: _ } = e {
                        let cu = uuid_of(old(self).tree_view(), child@);
                        let pu = uuid_of(old(self).tree_view(), parent@);
                        assert(old(self).tree_view().reqs()[cu].hrid == child@);
                        assert(old(self).tree_view().reqs()[pu].hrid == parent@);
                    }
                }
                Err(DirectoryError::Unlink(e))
            },
            Ok(u) => {
                proof {
                    let cu = uuid_of(old(self).tree_view(), child@);
                    let pu = uuid_of(old(self).tree_view(), parent@);
                    old(self).tree.lemma_hrid_unique(u, cu);
                    assert(old(self).tree_view().reqs()[pu].hrid == parent@);
                }
                self.mark_dirty(u);
                Ok(())
            },
        }
    }

    /// Refreshes the fingerprint recorded on the link from the requirement
    /// with HRID `child` to the one with HRID `parent`; the child's file is
    /// marked for rewriting when it changed.
    pub fn accept_suspect_link(&mut self, child: Hrid, parent: Hrid) -> (r: Result<AcceptResult, AcceptSuspectLinkError>)
        requires
            old(self).wf(),
        ensures
            final(self).wf(),
            match r {
                Err(AcceptSuspectLinkError::ChildNotFound(h)) => {
                    &&& h@ == child@
                    &&& !old(self).tree_view().has_hrid(child@)
                    &&& Directory::same_state(final(self), old(self))
                },
                Err(AcceptSuspectLinkError::ParentNotFound(h)) => {
                    &&& h@ == parent@
                    &&& old(self).tree_view().has_hrid(child@)
                    &&& !old(self).tree_view().has_hrid(parent@)
                    &&& Directory::same_state(final(self), old(self))
                },
                Err(AcceptSuspectLinkError::LinkNotFound { child: c, parent: p }) => {
                    &&& c@ == child@
                    &&& p@ == parent@
                    &&& old(self).tree_view().has_hrid(child@)
                    &&& old(self).tree_view().has_hrid(parent@)
                    &&& !old(self).tree_view().links().contains_key(
                        (uuid_of(old(self).tree_view(), child@), uuid_of(old(self).tree_view(), parent@)),
                    )
                    &&& Directory::same_state(final(self), old(self))
                },
                Ok(res) => {
                    let cu = uuid_of(old(self).tree_view(), child@);
                    let pu = uuid_of(old(self).tree_view(), parent@);
                    let k = (cu, pu);
                    let fp = content_fingerprint(old(self).tree_view().reqs()[pu]);
                    &&& old(self).tree_view().has_hrid(child@)
                    &&& old(self).tree_view().has_hrid(parent@)
                    &&& old(self).tree_view().links().contains_key(k)
                    &&& (res == AcceptResult::Updated) == (old(self).tree_view().links()[k].fingerprint != fp)
                    &&& final(self).tree_view().reqs() == old(self).tree_view().reqs()
                    &&& final(self).tree_view().nodes() == old(self).tree_view().nodes()
                    &&& final(self).tree_view().links() == old(self).tree_view().links().insert(
                        k,
                        ParentView { hrid: old(self).tree_view().links()[k].hrid, fingerprint: fp },
                    )
                    &&& !final(self).tree_view().is_suspect(k)
                    &&& final(self).dirty_set() == if res == AcceptResult::Updated {
                        old(self).dirty_set().insert(cu)
                    } else {
                        old(self).dirty_set()
                    }
                    &&& final(self).config_view() == old(self).config_view()
                    &&& final(self).path_map() == old(self).path_map()
                    &&& final(self).deletion_set() == old(self).deletion_set()
                },
            },
    {
        let cu = match self.tree.uuid_for_hrid(&child) {
            None => {
                return Err(AcceptSuspectLinkError::ChildNotFound(child));
            },
            Some(u) => u,
        };
        let pu = match self.tree.uuid_for_hrid(&parent) {
            None => {
                return Err(AcceptSuspectLinkError::ParentNotFound(parent));
            },
            Some(u) => u,
        };
        proof {
            self.tree.lemma_hrid_unique(cu, uuid_of(self.tree_view(), child@));
            self.tree.lemma_hrid_unique(pu, uuid_of(self.tree_view(), parent@));
            self.tree.lemma_req_is_node(cu);
        }
        match self.tree.accept_suspect_link(cu, pu) {
            Err(_) => Err(AcceptSuspectLinkError::LinkNotFound { child, parent }),
            Ok(changed) => {
                if changed {
                    self.mark_dirty(cu);
                    Ok(AcceptResult::Updated)
                } else {
                    Ok(AcceptResult::AlreadyUpToDate)
                }
            },
        }
    }
}


// ---------------------------------------------------------------------------
// Deleting, renaming and moving requirements
// ---------------------------------------------------------------------------

/// The links that remain once `u` is gone.
pub open spec fn links_without(links: Map<(u128, u128), ParentView>, u: u128) -> Map<(u128, u128), ParentView> {
    links.restrict(links.dom().filter(|k: (u128, u128)| k.0 != u && k.1 != u))
}

impl Directory {
    /// The files queued for removal after forgetting the file of `u`.
    pub open spec fn deletions_after_forgetting(&self, u: u128) -> Set<Seq<Seq<char>>> {
        if self.path_map().contains_key(u) {
            self.deletion_set().insert(self.path_map()[u])
        } else {
            self.deletion_set()
        }
    }

    /// Forgets the file of `u`, queueing it for removal.
    fn forget_path(&mut self, u: u128)
        requires
            old(self).wf(),
        ensures
            final(self).wf(),
            final(self).path_map() == old(self).path_map().remove(u),
            final(self).deletion_set() == old(self).deletions_after_forgetting(u),
            final(self).tree == old(self).tree,
            final(self).config == old(self).config,
            final(self).dirty == old(self).dirty,
    {
        match self.take_path(u) {
            Some(p) => {
                self.queue_deletion(p);
            },
            None => {},
        }
    }

    /// Deletes the requirement with this HRID and queues its file for
    /// removal; refused while it has children.
    pub fn delete_requirement(&mut self, hrid: &Hrid) -> (r: Result<(), DirectoryError>)
        requires
            old(self).wf(),
        ensures
            final(self).wf(),
            match r {
                Err(DirectoryError::NotFound(h)) => {
                    &&& h@ == hrid@
                    &&& !old(self).tree_view().has_hrid(hrid@)
                    &&& Directory::same_state(final(self), old(self))
                },
                Err(DirectoryError::HasChildren { hrid: h, children }) => {
                    let u = uuid_of(old(self).tree_view(), hrid@);
                    &&& h@ == hrid@
                    &&& old(self).tree_view().has_hrid(hrid@)
                    &&& children > 0
                    &&& children == old(self).tree_view().children_of(u).len()
                    &&& Directory::same_state(final(self), old(self))
                },
                Err(_) => false,
                Ok(()) => {
                    let u = uuid_of(old(self).tree_view(), hrid@);
                    &&& old(self).tree_view().has_hrid(hrid@)
                    &&& old(self).tree_view().children_of(u).is_empty()
                    &&& final(self).tree_view().reqs() == old(self).tree_view().reqs().remove(u)
                    &&& final(self).tree_view().nodes() == old(self).tree_view().nodes().remove(u)
                    &&& final(self).tree_view().links() == links_without(old(self).tree_view().links(), u)
                    &&& final(self).path_map() == old(self).path_map().remove(u)
                    &&& final(self).deletion_set() == old(self).deletions_after_forgetting(u)
                    &&& final(self).dirty_set() == old(self).dirty_set()
                    &&& final(self).config_view() == old(self).config_view()
                },
            },
    {
        let u = match self.tree.uuid_for_hrid(hrid) {
            None => {
                return Err(DirectoryError::NotFound(hrid.clone()));
            },
            Some(u) => u,
        };
        proof {
            self.tree.lemma_hrid_unique(u, uuid_of(self.tree_view(), hrid@));
        }
        let children = self.tree.children(u);
        if children.len() > 0 {
            proof {
                children@.unique_seq_to_set();
            }
            return Err(DirectoryError::HasChildren { hrid: hrid.clone(), children: children.len() });
        }
        proof {
            assert(children@.to_set() =~= Set::<u128>::empty());
        }
        match self.tree.remove_requirement(u) {
            Err(_) => {
                proof {
                    assert(false);
                }
                return Err(DirectoryError::NotFound(hrid.clone()));
            },
            Ok(()) => {},
        }
        self.forget_path(u);
        Ok(())
    }

    /// Deletes the requirement with this HRID, unlinking its children (whose
    /// files are marked for rewriting), and queues its file for removal.
    pub fn delete_and_orphan(&mut self, hrid: &Hrid) -> (r: Result<(), DirectoryError>)
        requires
            old(self).wf(),
        ensures
            final(self).wf(),
            match r {
                Err(e) => {
                    &&& e matches DirectoryError::NotFound(h) && h@ == hrid@
                    &&& !old(self).tree_view().has_hrid(hrid@)
                    &&& Directory::same_state(final(self), old(self))
                },
                Ok(()) => {
                    let u = uuid_of(old(self).tree_view(), hrid@);
                    &&& old(self).tree_view().has_hrid(hrid@)
                    &&& final(self).tree_view().reqs() == old(self).tree_view().reqs().remove(u)
                    &&& final(self).tree_view().nodes() == old(self).tree_view().nodes().remove(u)
                    &&& final(self).tree_view().links() == links_without(old(self).tree_view().links(), u)
                    &&& final(self).path_map() == old(self).path_map().remove(u)
                    &&& final(self).deletion_set() == old(self).deletions_after_forgetting(u)
                    &&& final(self).dirty_set() == old(self).dirty_set().union(old(self).tree_view().children_of(u))
                    &&& final(self).config_view() == old(self).config_view()
                },
            },
    {
        let u = match self.tree.uuid_for_hrid(hrid) {
            None => {
                return Err(DirectoryError::NotFound(hrid.clone()));
            },
            Some(u) => u,
        };
        proof {
            self.tree.lemma_hrid_unique(u, uuid_of(self.tree_view(), hrid@));
        }
        let children = self.tree.children(u);
        match self.tree.remove_requirement(u) {
            Err(_) => {
                proof {
                    assert(false);
                }
                return Err(DirectoryError::NotFound(hrid.clone()));
            },
            Ok(()) => {},
        }
        self.mark_all_dirty(&children);
        self.forget_path(u);
        Ok(())
    }

    /// Marks each of `uuids` for rewriting.
    fn mark_all_dirty(&mut self, uuids: &Vec<u128>)
        ensures
            final(self).dirty_set() == old(self).dirty_set().union(uuids@.to_set()),
            final(self).tree == old(self).tree,
            final(self).config == old(self).config,
            final(self).paths == old(self).paths,
            final(self).deletions == old(self).deletions,
    {
        let mut i: usize = 0;
        while i < uuids.len()
            invariant
                i <= uuids@.len(),
                self.dirty_set() == old(self).dirty_set().union(uuids@.take(i as int).to_set()),
                self.tree == old(self).tree,
                self.config == old(self).config,
                self.paths == old(self).paths,
                self.deletions == old(self).deletions,
            decreases uuids@.len() - i,
        {
            proof {
                assert(uuids@.take(i + 1) =~= uuids@.take(i as int).push(uuids@[i as int]));
                uuids@.take(i as int).lemma_push_to_set_commute(uuids@[i as int]);
            }
            self.mark_dirty(uuids[i]);
            i = i + 1;
            proof {
                assert(self.dirty_set() =~= old(self).dirty_set().union(uuids@.take(i as int).to_set()));
            }
        }
        proof {
            assert(uuids@.take(i as int) =~= uuids@);
        }
    }

    /// Renames the requirement with HRID `old_hrid` to `new_hrid` (see
    /// [`Tree::rename_requirement`]): its file moves to the canonical file
    /// of the new HRID, the old one is queued for removal, and its file and
    /// those of its children are marked for rewriting. Hands back the
    /// children's HRIDs.
    pub fn rename_requirement(&mut self, old_hrid: &Hrid, new_hrid: &Hrid) -> (r: Result<Vec<Hrid>, DirectoryError>)
        requires
            old(self).wf(),
        ensures
            final(self).wf(),
            match r {
                Err(DirectoryError::DisallowedKind(k)) => {
                    &&& k@ == new_hrid@.kind
                    &&& !kind_allowed(old(self).config_view(), new_hrid@.kind)
                    &&& Directory::same_state(final(self), old(self))
                },
                Err(DirectoryError::Rename(RenameError::NotFound(h))) => {
                    &&& h@ == old_hrid@
                    &&& kind_allowed(old(self).config_view(), new_hrid@.kind)
                    &&& !old(self).tree_view().has_hrid(old_hrid@)
                    &&& Directory::same_state(final(self), old(self))
                },
                Err(DirectoryError::Rename(RenameError::AlreadyExists(h))) => {
                    &&& h@ == new_hrid@
                    &&& kind_allowed(old(self).config_view(), new_hrid@.kind)
                    &&& old(self).tree_view().has_hrid(old_hrid@)
                    &&& old(self).tree_view().has_hrid(new_hrid@)
                    &&& Directory::same_state(final(self), old(self))
                },
                Err(_) => false,
                Ok(children) => {
                    let u = uuid_of(old(self).tree_view(), old_hrid@);
                    let o = old(self).tree_view().reqs()[u];
                    let cs = old(self).tree_view().children_of(u);
                    &&& kind_allowed(old(self).config_view(), new_hrid@.kind)
                    &&& old(self).tree_view().has_hrid(old_hrid@)
                    &&& !old(self).tree_view().has_hrid(new_hrid@)
                    &&& final(self).tree_view().reqs() == old(self).tree_view().reqs().insert(
                        u,
                        ReqSpec { hrid: new_hrid@, title: o.title, body: o.body, tags: o.tags, created: o.created },
                    )
                    &&& final(self).tree_view().nodes() == old(self).tree_view().nodes()
                    &&& final(self).tree_view().links() == renamed_links(old(self).tree_view().links(), u, new_hrid@)
                    &&& hrid_set(children@) == hrids_of(final(self).tree_view(), cs)
                    &&& final(self).path_map() == old(self).path_map().insert(u, old(self).canonical(new_hrid@))
                    &&& final(self).deletion_set() == old(self).deletions_after_forgetting(u)
                    &&& final(self).dirty_set() == old(self).dirty_set().insert(u).union(cs)
                    &&& final(self).config_view() == old(self).config_view()
                },
            },
    {
        if !self.config.is_kind_allowed(new_hrid.kind()) {
            return Err(DirectoryError::DisallowedKind(string_of(new_hrid.kind())));
        }
        let (u, children) = match self.tree.rename_requirement(old_hrid, new_hrid) {
            Err(e) => {
                return Err(DirectoryError::Rename(e));
            },
            Ok(x) => x,
        };
        proof {
            old(self).tree.lemma_hrid_unique(u, uuid_of(old(self).tree_view(), old_hrid@));
        }
        self.forget_path(u);
        let path = self.canonical_path_for(new_hrid);
        self.set_path(u, path);
        self.mark_dirty(u);
        self.mark_all_dirty(&children);
        let hrids = self.hrids_for(&children);
        proof {
            assert(self.path_map() =~= old(self).path_map().insert(u, old(self).canonical(new_hrid@)));
        }
        Ok(hrids)
    }

    /// Moves the requirement with this HRID to the file `new_path` (below
    /// the root). When the path names another HRID the requirement is
    /// renamed to it (see [`Tree::rename_requirement`]) and the HRIDs of its
    /// children, whose files are marked for rewriting, are handed back. The
    /// old file is queued for removal and the requirement's file is marked
    /// for rewriting. A path whose HRID has a kind the configuration does
    /// not allow is refused, and the store is left as it was.
    pub fn move_requirement(&mut self, hrid: &Hrid, new_path: Vec<String>) -> (r: Result<Option<Vec<Hrid>>, DirectoryError>)
        requires
            old(self).wf(),
        ensures
            final(self).wf(),
            match r {
                Err(DirectoryError::NotFound(h)) => {
                    &&& h@ == hrid@
                    &&& !old(self).tree_view().has_hrid(hrid@)
                    &&& Directory::same_state(final(self), old(self))
                },
                Err(DirectoryError::InvalidPath(m)) => {
                    &&& old(self).tree_view().has_hrid(hrid@)
                    &&& path_hrid(texts(new_path@), old(self).config_view().subfolders_are_namespaces) == Err::<
                        SpecHrid,
                        Seq<char>,
                    >(m@)
                    &&& Directory::same_state(final(self), old(self))
                },
                Err(DirectoryError::DisallowedKind(k)) => {
                    &&& old(self).tree_view().has_hrid(hrid@)
                    &&& path_hrid(texts(new_path@), old(self).config_view().subfolders_are_namespaces) is Ok
                    &&& k@ == path_hrid(texts(new_path@), old(self).config_view().subfolders_are_namespaces)->Ok_0.kind
                    &&& !kind_allowed(old(self).config_view(), k@)
                    &&& Directory::same_state(final(self), old(self))
                },
                Err(DirectoryError::Rename(e)) => {
                    &&& old(self).tree_view().has_hrid(hrid@)
                    &&& kind_allowed(
                        old(self).config_view(),
                        path_hrid(texts(new_path@), old(self).config_view().subfolders_are_namespaces)->Ok_0.kind,
                    )
                    &&& e matches RenameError::AlreadyExists(h) && path_hrid(
                        texts(new_path@),
                        old(self).config_view().subfolders_are_namespaces,
                    ) == Ok::<SpecHrid, Seq<char>>(h@) && old(self).tree_view().has_hrid(h@) && h@ != hrid@
                    &&& Directory::same_state(final(self), old(self))
                },
                Err(_) => false,
                Ok(renamed) => {
                    let u = uuid_of(old(self).tree_view(), hrid@);
                    let o = old(self).tree_view().reqs()[u];
                    let cs = old(self).tree_view().children_of(u);
                    &&& old(self).tree_view().has_hrid(hrid@)
                    &&& path_hrid(texts(new_path@), old(self).config_view().subfolders_are_namespaces) is Ok
                    &&& kind_allowed(
                        old(self).config_view(),
                        path_hrid(texts(new_path@), old(self).config_view().subfolders_are_namespaces)->Ok_0.kind,
                    )
                    &&& final(self).path_map() == old(self).path_map().insert(u, texts(new_path@))
                    &&& final(self).deletion_set() == old(self).deletions_after_forgetting(u)
                    &&& final(self).config_view() == old(self).config_view()
                    &&& final(self).tree_view().nodes() == old(self).tree_view().nodes()
                    &&& match renamed {
                        None => {
                            &&& path_hrid(texts(new_path@), old(self).config_view().subfolders_are_namespaces)
                                == Ok::<SpecHrid, Seq<char>>(hrid@)
                            &&& final(self).tree_view().reqs() == old(self).tree_view().reqs()
                            &&& final(self).tree_view().links() == old(self).tree_view().links()
                            &&& final(self).dirty_set() == old(self).dirty_set().insert(u)
                        },
                        Some(children) => {
                            let nh = path_hrid(texts(new_path@), old(self).config_view().subfolders_are_namespaces)->Ok_0;
                            &&& nh != hrid@
                            &&& !old(self).tree_view().has_hrid(nh)
                            &&& final(self).tree_view().reqs() == old(self).tree_view().reqs().insert(
                                u,
                                ReqSpec { hrid: nh, title: o.title, body: o.body, tags: o.tags, created: o.created },
                            )
                            &&& final(self).tree_view().links() == renamed_links(old(self).tree_view().links(), u, nh)
                            &&& hrid_set(children@) == hrids_of(final(self).tree_view(), cs)
                            &&& final(self).dirty_set() == old(self).dirty_set().insert(u).union(cs)
                        },
                    }
                },
            },
    {
        let u = match self.tree.uuid_for_hrid(hrid) {
            None => {
                return Err(DirectoryError::NotFound(hrid.clone()));
            },
            Some(u) => u,
        };
        proof {
            self.tree.lemma_hrid_unique(u, uuid_of(self.tree_view(), hrid@));
        }
        let new_hrid = match hrid_from_path(new_path.as_slice(), &self.config) {
            Err(m) => {
                return Err(DirectoryError::InvalidPath(m));
            },
            Ok(h) => h,
        };
        if !self.config.is_kind_allowed(new_hrid.kind()) {
            return Err(DirectoryError::DisallowedKind(string_of(new_hrid.kind())));
        }
        if new_hrid.same_as(hrid) {
            self.forget_path(u);
            self.set_path(u, new_path);
            self.mark_dirty(u);
            proof {
                assert(self.path_map() =~= old(self).path_map().insert(u, texts(new_path@)));
            }
            Ok(None)
        } else {
            let (ru, children) = match self.tree.rename_requirement(hrid, &new_hrid) {
                Err(e) => {
                    proof {
                        if let RenameError::NotFound(_) = e {
                            assert(false);
                        }
                    }
                    return Err(DirectoryError::Rename(e));
                },
                Ok(x) => x,
            };
            proof {
                old(self).tree.lemma_hrid_unique(ru, u);
            }
            self.mark_all_dirty(&children);
            let hrids = self.hrids_for(&children);
            self.forget_path(u);
            self.set_path(u, new_path);
            self.mark_dirty(u);
            proof {
                assert(self.path_map() =~= old(self).path_map().insert(u, texts(new_path@)));
                assert(self.dirty_set() =~= old(self).dirty_set().insert(u).union(old(self).tree_view().children_of(u)));
            }
            Ok(Some(hrids))
        }
    }
}


// ---------------------------------------------------------------------------
// Maintenance: stale parent HRIDs, suspect links, cycles, misplaced files
// ---------------------------------------------------------------------------

/// A misplaced file: the requirement's HRID, where its file is, and where
/// it belongs.
pub open spec fn drift_view(d: (Hrid, Vec<String>, Vec<String>)) -> (SpecHrid, Seq<Seq<char>>, Seq<Seq<char>>) {
    (d.0@, texts(d.1@), texts(d.2@))
}

/// The HRIDs of the first `n` entries of a list of link pairs.
pub open spec fn pair_hrids(v: Seq<(Hrid, Hrid)>) -> Set<(SpecHrid, SpecHrid)> {
    v.map_values(|p: (Hrid, Hrid)| (p.0@, p.1@)).to_set()
}

impl Directory {
    /// Every requirement whose recorded file is not its canonical file.
    pub open spec fn misplaced(&self) -> Set<(SpecHrid, Seq<Seq<char>>, Seq<Seq<char>>)> {
        Set::new(|d: (SpecHrid, Seq<Seq<char>>, Seq<Seq<char>>)| exists|u: u128|
            #[trigger] self.tree_view().reqs().contains_key(u) && self.path_map().contains_key(u)
                && d.0 == self.tree_view().reqs()[u].hrid && d.1 == self.path_map()[u]
                && d.2 == self.canonical(d.0) && d.1 != d.2)
    }

    /// The HRIDs of the requirements with a link recording a stale parent
    /// HRID.
    pub fn check_hrid_drift(&self) -> (r: Vec<Hrid>)
        requires
            self.wf(),
        ensures
            hrid_set(r@) == hrids_of(self.tree_view(), self.tree_view().drifted()),
    {
        let us = self.tree.check_hrid_drift();
        self.hrids_for(&us)
    }

    /// Records each parent's current HRID on every link to it; the files of
    /// the children whose links changed are marked for rewriting, and their
    /// HRIDs handed back.
    pub fn update_hrids(&mut self) -> (r: Vec<Hrid>)
        requires
            old(self).wf(),
        ensures
            final(self).wf(),
            hrid_set(r@) == hrids_of(old(self).tree_view(), old(self).tree_view().drifted()),
            final(self).tree_view().reqs() == old(self).tree_view().reqs(),
            final(self).tree_view().nodes() == old(self).tree_view().nodes(),
            final(self).tree_view().links() == refreshed_links(old(self).tree_view().links(), old(self).tree_view().reqs()),
            final(self).tree_view().drifted().is_empty(),
            final(self).dirty_set() == old(self).dirty_set().union(old(self).tree_view().drifted()),
            final(self).config_view() == old(self).config_view(),
            final(self).path_map() == old(self).path_map(),
            final(self).deletion_set() == old(self).deletion_set(),
    {
        let us = self.tree.update_hrids();
        self.mark_all_dirty(&us);
        proof {
            assert(hrids_of(self.tree_view(), us@.to_set()) =~= hrids_of(old(self).tree_view(), us@.to_set()));
        }
        self.hrids_for(&us)
    }

    /// Every suspect link (see [`Tree::suspect_links`]).
    pub fn suspect_links(&self) -> (r: Vec<SuspectLink>)
        requires
            self.wf(),
        ensures
            suspect_keys(r@).no_duplicates(),
            forall|k: (u128, u128)| #[trigger] suspect_keys(r@).contains(k) <==> self.tree_view().is_suspect(k),
            forall|i: int| 0 <= i < r@.len() ==> self.tree_view().reports(#[trigger] r@[i]),
    {
        self.tree.suspect_links()
    }

    /// The cycles of the requirement graph (see [`Tree::detect_cycles`]).
    pub fn detect_cycles(&self) -> (r: Vec<Vec<Hrid>>)
        requires
            self.wf(),
        ensures
            self.tree_view().cycle_list(r@),
            r@.len() == 0 <==> acyclic(self.tree_view().links()),
    {
        self.tree.detect_cycles()
    }

    /// Accepts every suspect link whose parent is a requirement; the files
    /// of the children concerned are marked for rewriting, and the links
    /// handed back as `(child, parent)` HRIDs.
    pub fn accept_all_suspect_links(&mut self) -> (r: Vec<(Hrid, Hrid)>)
        requires
            old(self).wf(),
        ensures
            final(self).wf(),
            pair_hrids(r@) == Set::new(|p: (SpecHrid, SpecHrid)| exists|k: (u128, u128)|
                #[trigger] old(self).tree_view().is_suspect(k) && old(self).tree_view().reqs().contains_key(k.1)
                    && old(self).tree_view().reqs().contains_key(k.0)
                    && p == (old(self).tree_view().reqs()[k.0].hrid, old(self).tree_view().reqs()[k.1].hrid)),
            final(self).tree_view().reqs() == old(self).tree_view().reqs(),
            final(self).tree_view().nodes() == old(self).tree_view().nodes(),
            final(self).tree_view().links() == accepted_links(old(self).tree_view().links(), old(self).tree_view().reqs()),
            forall|k: (u128, u128)| #[trigger] final(self).tree_view().is_suspect(k) ==> !final(self).tree_view().reqs().contains_key(k.1),
            final(self).dirty_set() == old(self).dirty_set().union(Set::new(|c: u128| exists|k: (u128, u128)|
                #[trigger] old(self).tree_view().is_suspect(k) && old(self).tree_view().reqs().contains_key(k.1)
                    && old(self).tree_view().reqs().contains_key(k.0) && k.0 == c)),
            final(self).config_view() == old(self).config_view(),
            final(self).path_map() == old(self).path_map(),
            final(self).deletion_set() == old(self).deletion_set(),
    {
        let ghost t0 = self.tree_view();
        let pairs = self.tree.accept_all_suspect_links();
        let mut out: Vec<(Hrid, Hrid)> = Vec::new();
        let mut i: usize = 0;
        while i < pairs.len()
            invariant
                self.wf(),
                i <= pairs@.len(),
                self.tree_view().reqs() == t0.reqs(),
                self.tree_view().nodes() == old(self).tree_view().nodes(),
                self.tree_view().links() == accepted_links(t0.links(), t0.reqs()),
                forall|k: (u128, u128)| #[trigger] self.tree_view().is_suspect(k) ==> !self.tree_view().reqs().contains_key(k.1),
                forall|k: (u128, u128)| #[trigger] pairs@.contains(k) <==> t0.is_suspect(k) && t0.reqs().contains_key(k.1),
                t0 == old(self).tree_view(),
                self.config == old(self).config,
                self.paths == old(self).paths,
                self.deletions == old(self).deletions,
                pair_hrids(out@) == Set::new(|p: (SpecHrid, SpecHrid)| exists|j: int|
                    0 <= j < i && t0.reqs().contains_key(#[trigger] pairs@[j].0)
                        && p == (t0.reqs()[pairs@[j].0].hrid, t0.reqs()[pairs@[j].1].hrid)),
                self.dirty_set() == old(self).dirty_set().union(Set::new(|c: u128| exists|j: int|
                    0 <= j < i && t0.reqs().contains_key(#[trigger] pairs@[j].0) && pairs@[j].0 == c)),
            decreases pairs@.len() - i,
        {
            let (c, p) = pairs[i];
            let ghost before_out = out@;
            let ghost before_dirty = self.dirty_set();
            proof {
                assert(pairs@.contains(pairs@[i as int]));
            }
            match (self.tree.hrid(c), self.tree.hrid(p)) {
                (Some(ch), Some(ph)) => {
                    let pair = (ch.clone(), ph.clone());
                    out.push(pair);
                    self.mark_dirty(c);
                    proof {
                        assert(out@.map_values(|q: (Hrid, Hrid)| (q.0@, q.1@)) =~= before_out.map_values(
                            |q: (Hrid, Hrid)| (q.0@, q.1@),
                        ).push((t0.reqs()[c].hrid, t0.reqs()[p].hrid)));
                        before_out.map_values(|q: (Hrid, Hrid)| (q.0@, q.1@)).lemma_push_to_set_commute(
                            (t0.reqs()[c].hrid, t0.reqs()[p].hrid),
                        );
                        assert(pair_hrids(out@) =~= Set::new(|q: (SpecHrid, SpecHrid)| exists|j: int|
                            0 <= j < i + 1 && t0.reqs().contains_key(#[trigger] pairs@[j].0)
                                && q == (t0.reqs()[pairs@[j].0].hrid, t0.reqs()[pairs@[j].1].hrid)));
                        assert(self.dirty_set() =~= old(self).dirty_set().union(Set::new(|x: u128| exists|j: int|
                            0 <= j < i + 1 && t0.reqs().contains_key(#[trigger] pairs@[j].0) && pairs@[j].0 == x)));
                    }
                },
                _ => {
                    proof {
                        assert(!t0.reqs().contains_key(c));
                        assert(pair_hrids(out@) =~= Set::new(|q: (SpecHrid, SpecHrid)| exists|j: int|
                            0 <= j < i + 1 && t0.reqs().contains_key(#[trigger] pairs@[j].0)
                                && q == (t0.reqs()[pairs@[j].0].hrid, t0.reqs()[pairs@[j].1].hrid)));
                        assert(self.dirty_set() =~= old(self).dirty_set().union(Set::new(|x: u128| exists|j: int|
                            0 <= j < i + 1 && t0.reqs().contains_key(#[trigger] pairs@[j].0) && pairs@[j].0 == x)));
                    }
                },
            }
            i = i + 1;
        }
        proof {
            assert forall|q: (SpecHrid, SpecHrid)| pair_hrids(out@).contains(q) == (exists|k: (u128, u128)|
                #[trigger] t0.is_suspect(k) && t0.reqs().contains_key(k.1) && t0.reqs().contains_key(k.0)
                    && q == (t0.reqs()[k.0].hrid, t0.reqs()[k.1].hrid)) by {
                if pair_hrids(out@).contains(q) {
                    let j = choose|j: int| 0 <= j < i && t0.reqs().contains_key(#[trigger] pairs@[j].0)
                        && q == (t0.reqs()[pairs@[j].0].hrid, t0.reqs()[pairs@[j].1].hrid);
                    assert(pairs@.contains(pairs@[j]));
                }
                if exists|k: (u128, u128)| #[trigger] t0.is_suspect(k) && t0.reqs().contains_key(k.1)
                    && t0.reqs().contains_key(k.0) && q == (t0.reqs()[k.0].hrid, t0.reqs()[k.1].hrid) {
                    let k = choose|k: (u128, u128)| #[trigger] t0.is_suspect(k) && t0.reqs().contains_key(k.1)
                        && t0.reqs().contains_key(k.0) && q == (t0.reqs()[k.0].hrid, t0.reqs()[k.1].hrid);
                    assert(pairs@.contains(k));
                    let j = choose|j: int| 0 <= j < pairs@.len() && pairs@[j] == k;
                    assert(t0.reqs().contains_key(pairs@[j].0));
                }
            }
            assert(pair_hrids(out@) =~= Set::new(|q: (SpecHrid, SpecHrid)| exists|k: (u128, u128)|
                #[trigger] t0.is_suspect(k) && t0.reqs().contains_key(k.1) && t0.reqs().contains_key(k.0)
                    && q == (t0.reqs()[k.0].hrid, t0.reqs()[k.1].hrid)));
            assert forall|x: u128| #[trigger] self.dirty_set().contains(x) == old(self).dirty_set().union(Set::new(|c: u128| exists|k: (u128, u128)|
                #[trigger] t0.is_suspect(k) && t0.reqs().contains_key(k.1) && t0.reqs().contains_key(k.0) && k.0 == c)).contains(x) by {
                if exists|j: int| 0 <= j < i && t0.reqs().contains_key(#[trigger] pairs@[j].0) && pairs@[j].0 == x {
                    let j = choose|j: int| 0 <= j < i && t0.reqs().contains_key(#[trigger] pairs@[j].0) && pairs@[j].0 == x;
                    assert(pairs@.contains(pairs@[j]));
                    assert(t0.is_suspect(pairs@[j]));
                }
                if exists|k: (u128, u128)| #[trigger] t0.is_suspect(k) && t0.reqs().contains_key(k.1) && t0.reqs().contains_key(k.0) && k.0 == x {
                    let k = choose|k: (u128, u128)| #[trigger] t0.is_suspect(k) && t0.reqs().contains_key(k.1) && t0.reqs().contains_key(k.0) && k.0 == x;
                    assert(pairs@.contains(k));
                    let j = choose|j: int| 0 <= j < pairs@.len() && pairs@[j] == k;
                    assert(t0.reqs().contains_key(pairs@[j].0));
                }
            }
            assert(self.dirty_set() =~= old(self).dirty_set().union(Set::new(|c: u128| exists|k: (u128, u128)|
                #[trigger] t0.is_suspect(k) && t0.reqs().contains_key(k.1) && t0.reqs().contains_key(k.0) && k.0 == c)));
        }
        out
    }

    /// Every requirement whose recorded file is not its canonical file, with
    /// both files, in storage order.
    pub fn check_path_drift(&self) -> (r: Vec<(Hrid, Vec<String>, Vec<String>)>)
        requires
            self.wf(),
        ensures
            r@.map_values(|d: (Hrid, Vec<String>, Vec<String>)| drift_view(d)).to_set() == self.misplaced(),
    {
        let views = self.tree.iter();
        let ghost ord = self.tree_view().order();
        let mut out: Vec<(Hrid, Vec<String>, Vec<String>)> = Vec::new();
        let mut i: usize = 0;
        while i < views.len()
            invariant
                self.wf(),
                i <= views@.len(),
                views@.len() == ord.len(),
                ord == self.tree_view().order(),
                ord.to_set() == self.tree_view().reqs().dom(),
                forall|j: int| 0 <= j < views@.len() ==> self.tree_view().describes(ord[j], #[trigger] views@[j]),
                out@.map_values(|d: (Hrid, Vec<String>, Vec<String>)| drift_view(d)).to_set() == Set::new(
                    |d: (SpecHrid, Seq<Seq<char>>, Seq<Seq<char>>)| exists|j: int|
                        0 <= j < i && self.path_map().contains_key(#[trigger] ord[j])
                            && d.0 == self.tree_view().reqs()[ord[j]].hrid && d.1 == self.path_map()[ord[j]]
                            && d.2 == self.canonical(d.0) && d.1 != d.2,
                ),
            decreases views@.len() - i,
        {
            let ghost before = out@.map_values(|d: (Hrid, Vec<String>, Vec<String>)| drift_view(d));
            let u = views[i].uuid;
            proof {
                assert(self.tree_view().describes(ord[i as int], views@[i as int]));
            }
            let canonical = self.canonical_path_for(&views[i].hrid);
            match self.find_path(u) {
                Some(k) => {
                    if !same_path(&self.paths[k].1, &canonical) {
                        let d = (views[i].hrid.clone(), copy_path(&self.paths[k].1), canonical);
                        out.push(d);
                        proof {
                            let dv = drift_view(d);
                            assert(out@.map_values(|d: (Hrid, Vec<String>, Vec<String>)| drift_view(d)) =~= before.push(dv));
                            before.lemma_push_to_set_commute(dv);
                        }
                    }
                },
                None => {},
            }
            proof {
                assert(out@.map_values(|d: (Hrid, Vec<String>, Vec<String>)| drift_view(d)).to_set() =~= Set::new(
                    |d: (SpecHrid, Seq<Seq<char>>, Seq<Seq<char>>)| exists|j: int|
                        0 <= j < i + 1 && self.path_map().contains_key(#[trigger] ord[j])
                            && d.0 == self.tree_view().reqs()[ord[j]].hrid && d.1 == self.path_map()[ord[j]]
                            && d.2 == self.canonical(d.0) && d.1 != d.2,
                ));
            }
            i = i + 1;
        }
        proof {
            assert forall|d: (SpecHrid, Seq<Seq<char>>, Seq<Seq<char>>)| #[trigger] self.misplaced().contains(d) implies
                out@.map_values(|d: (Hrid, Vec<String>, Vec<String>)| drift_view(d)).to_set().contains(d) by {
                let u = choose|u: u128| #[trigger] self.tree_view().reqs().contains_key(u) && self.path_map().contains_key(u)
                    && d.0 == self.tree_view().reqs()[u].hrid && d.1 == self.path_map()[u]
                    && d.2 == self.canonical(d.0) && d.1 != d.2;
                assert(ord.to_set().contains(u));
                let j = choose|j: int| 0 <= j < ord.len() && ord[j] == u;
                assert(self.path_map().contains_key(ord[j]));
            }
            let ghost outv = out@.map_values(|d: (Hrid, Vec<String>, Vec<String>)| drift_view(d)).to_set();
            assert forall|d: (SpecHrid, Seq<Seq<char>>, Seq<Seq<char>>)|
                #[trigger] outv.contains(d)
                implies self.misplaced().contains(d) by {
                let j = choose|j: int|
                        0 <= j < i && self.path_map().contains_key(#[trigger] ord[j])
                            && d.0 == self.tree_view().reqs()[ord[j]].hrid && d.1 == self.path_map()[ord[j]]
                            && d.2 == self.canonical(d.0) && d.1 != d.2;
                assert(ord.to_set().contains(ord[j]));
                assert(self.tree_view().reqs().contains_key(ord[j]));
            }
            assert(out@.map_values(|d: (Hrid, Vec<String>, Vec<String>)| drift_view(d)).to_set() =~= self.misplaced());
        }
        out
    }
}


// ---------------------------------------------------------------------------
// Cascading deletion
// ---------------------------------------------------------------------------

/// `s` is the least set closed as [`orphan_closed`] says: every other
/// closed set holds it.
pub open spec fn least_orphan_closed(t: Tree, root: u128, s: Set<u128>) -> bool {
    &&& orphan_closed(t, root, s)
    &&& forall|s2: Set<u128>| #[trigger] orphan_closed(t, root, s2) ==> s.subset_of(s2)
}

/// `s` is what deleting `root` takes with it: `root`, and every other
/// member is a requirement whose parents are all members (it has at least
/// one); and no requirement outside `s` is left with parents that are all
/// members.
pub open spec fn orphan_closed(t: Tree, root: u128, s: Set<u128>) -> bool {
    &&& s.contains(root)
    &&& forall|m: u128| #[trigger] s.contains(m) && m != root ==> {
        &&& t.reqs().contains_key(m)
        &&& !t.parents_of(m).is_empty()
        &&& t.parents_of(m).subset_of(s)
    }
    &&& forall|c: u128, p: u128|
        #[trigger] t.links().contains_key((c, p)) && s.contains(p) && t.parents_of(c).subset_of(s) ==> s.contains(c)
}

fn vec_contains(v: &Vec<u128>, x: u128) -> (r: bool)
    ensures
        r == v@.contains(x),
{
    let mut i: usize = 0;
    while i < v.len()
        invariant
            i <= v@.len(),
            forall|j: int| 0 <= j < i ==> v@[j] != x,
        decreases v@.len() - i,
    {
        if v[i] == x {
            return true;
        }
        i = i + 1;
    }
    false
}

/// `q` is not in `d`, or sits at or after position `from`.
pub open spec fn pending_in(d: Seq<u128>, q: u128, from: int) -> bool {
    !d.contains(q) || exists|j: int| from <= j < d.len() && d[j] == q
}

impl Directory {
    /// The requirement with this HRID together with every descendant that
    /// would be left without a parent once the others are deleted (none
    /// when there is no such requirement).
    pub fn find_orphaned_descendants(&self, hrid: &Hrid) -> (r: Vec<Hrid>)
        requires
            self.wf(),
        ensures
            !self.tree_view().has_hrid(hrid@) ==> r@.len() == 0,
            self.tree_view().has_hrid(hrid@) ==> exists|s: Set<u128>|
                least_orphan_closed(self.tree_view(), uuid_of(self.tree_view(), hrid@), s)
                    && #[trigger] hrids_of(self.tree_view(), s) == hrid_set(r@),
            crate::sorting::strictly_sorted(r@),
    {
        let root = match self.tree.uuid_for_hrid(hrid) {
            None => {
                return Vec::new();
            },
            Some(u) => u,
        };
        let ghost t = self.tree_view();
        proof {
            t.lemma_hrid_unique(root, uuid_of(t, hrid@));
            t.lemma_reqs_finite();
        }
        let ghost n = t.reqs().dom().len();
        let mut del: Vec<u128> = Vec::new();
        del.push(root);
        proof {
            assert(del@.to_set().subset_of(t.reqs().dom()));
            del@.unique_seq_to_set();
            vstd::set_lib::lemma_len_subset(del@.to_set(), t.reqs().dom());
        }
        let mut qi: usize = 0;
        while qi < del.len()
            invariant
                self.wf(),
                t == self.tree_view(),
                t.reqs().dom().finite(),
                n == t.reqs().dom().len(),
                del@.no_duplicates(),
                forall|s2: Set<u128>| #[trigger] orphan_closed(t, root, s2) ==> del@.to_set().subset_of(s2),
                del@.len() >= 1,
                del@[0] == root,
                qi <= del@.len(),
                del@.len() <= n,
                forall|m: u128| #[trigger] del@.contains(m) ==> t.reqs().contains_key(m),
                forall|k: int| 1 <= k < del@.len() ==> !t.parents_of(#[trigger] del@[k]).is_empty()
                    && t.parents_of(del@[k]).subset_of(del@.to_set()),
                forall|k: int, c: u128| 0 <= k < qi && #[trigger] t.links().contains_key((c, del@[k]))
                    ==> del@.contains(c) || exists|q: u128| #[trigger] t.links().contains_key((c, q)) && pending_in(del@, q, qi as int),
            decreases n - qi,
        {
            let cur = del[qi];
            let cs = self.tree.children(cur);
            let mut ci: usize = 0;
            while ci < cs.len()
                invariant
                    self.wf(),
                    t == self.tree_view(),
                    t.reqs().dom().finite(),
                    n == t.reqs().dom().len(),
                    del@.no_duplicates(),
                    forall|s2: Set<u128>| #[trigger] orphan_closed(t, root, s2) ==> del@.to_set().subset_of(s2),
                    del@.len() >= 1,
                    del@[0] == root,
                    qi < del@.len(),
                    cur == del@[qi as int],
                    del@.len() <= n,
                    ci <= cs@.len(),
                    cs@.no_duplicates(),
                    cs@.to_set() == t.children_of(cur),
                    forall|m: u128| #[trigger] del@.contains(m) ==> t.reqs().contains_key(m),
                    forall|k: int| 1 <= k < del@.len() ==> !t.parents_of(#[trigger] del@[k]).is_empty()
                        && t.parents_of(del@[k]).subset_of(del@.to_set()),
                    forall|k: int, c: u128| 0 <= k < qi && #[trigger] t.links().contains_key((c, del@[k]))
                        ==> del@.contains(c) || exists|q: u128| #[trigger] t.links().contains_key((c, q)) && pending_in(del@, q, qi as int),
                    forall|j: int| 0 <= j < ci ==> del@.contains(#[trigger] cs@[j]) || exists|q: u128|
                        #[trigger] t.links().contains_key((cs@[j], q)) && pending_in(del@, q, qi + 1),
                decreases cs@.len() - ci,
            {
                let c = cs[ci];
                let ghost d0 = del@;
                proof {
                    assert(cs@.to_set().contains(c));
                    assert(t.links().contains_key((c, cur)));
                    t.lemma_link_child_is_req((c, cur));
                }
                if !vec_contains(&del, c) {
                    let ps = self.tree.parents(c);
                    let mut all_in = true;
                    let mut pi: usize = 0;
                    let ghost mut missing: u128 = 0;
                    while pi < ps.len()
                        invariant
                            pi <= ps@.len(),
                            all_in ==> forall|j: int| 0 <= j < pi ==> del@.contains(#[trigger] ps@[j].0),
                            !all_in ==> t.parents_of(c).contains(missing) && !del@.contains(missing),
                            ps@.map_values(|p: (u128, String)| p.0).to_set() == t.parents_of(c),
                        decreases ps@.len() - pi,
                    {
                        if !vec_contains(&del, ps[pi].0) {
                            proof {
                                assert(ps@.map_values(|p: (u128, String)| p.0)[pi as int] == ps@[pi as int].0);
                                assert(ps@.map_values(|p: (u128, String)| p.0).to_set().contains(ps@[pi as int].0));
                                missing = ps@[pi as int].0;
                            }
                            all_in = false;
                        }
                        pi = pi + 1;
                    }
                    if all_in {
                        proof {
                            assert forall|p: u128| t.parents_of(c).contains(p) implies d0.to_set().contains(p) by {
                                let pv = ps@.map_values(|p: (u128, String)| p.0);
                                assert(pv.to_set().contains(p));
                                let j = choose|j: int| 0 <= j < pv.len() && pv[j] == p;
                                assert(del@.contains(ps@[j].0));
                            }
                            assert(t.parents_of(c).contains(cur));
                            assert(!d0.contains(c));
                            assert forall|m: u128| d0.push(c).to_set().contains(m) implies t.reqs().dom().contains(m) by {
                                let j = choose|j: int| 0 <= j < d0.push(c).len() && d0.push(c)[j] == m;
                                if j < d0.len() {
                                    assert(d0[j] == m);
                                    assert(d0.contains(m));
                                }
                            }
                            assert(d0.push(c).no_duplicates()) by {
                                assert forall|a: int, b: int| 0 <= a < d0.push(c).len() && 0 <= b < d0.push(c).len() && a != b
                                    implies d0.push(c)[a] != d0.push(c)[b] by {
                                    if a == d0.len() as int {
                                        assert(!d0.contains(d0.push(c)[b]) || b != d0.len());
                                        if b < d0.len() {
                                            assert(d0[b] == d0.push(c)[b]);
                                        }
                                    }
                                    if b == d0.len() as int && a < d0.len() {
                                        assert(d0[a] == d0.push(c)[a]);
                                    }
                                }
                            }
                            assert(d0.push(c).to_set().subset_of(t.reqs().dom()));
                            d0.push(c).unique_seq_to_set();
                            vstd::set_lib::lemma_len_subset(d0.push(c).to_set(), t.reqs().dom());
                        }
                        del.push(c);
                        proof {
                            assert(del@ == d0.push(c));
                            d0.lemma_push_to_set_commute(c);
                            assert forall|s2: Set<u128>| #[trigger] orphan_closed(t, root, s2) implies del@.to_set().subset_of(s2) by {
                                assert(d0.to_set().subset_of(s2));
                                assert(d0.contains(cur));
                                assert(s2.contains(cur));
                                assert(t.parents_of(c).subset_of(s2));
                                assert(t.links().contains_key((c, cur)));
                                assert(s2.contains(c));
                            }
                            assert forall|m: u128| #[trigger] del@.contains(m) implies t.reqs().contains_key(m) by {
                                if m != c {
                                    assert(d0.contains(m));
                                }
                            }
                            assert forall|k: int| 1 <= k < del@.len() implies !t.parents_of(#[trigger] del@[k]).is_empty()
                                && t.parents_of(del@[k]).subset_of(del@.to_set()) by {
                                if k < d0.len() {
                                    assert(del@[k] == d0[k]);
                                } else {
                                    assert(t.parents_of(c).contains(cur));
                                }
                            }
                            assert forall|k: int, x: u128| 0 <= k < qi && #[trigger] t.links().contains_key((x, del@[k]))
                                implies del@.contains(x) || exists|q: u128| #[trigger] t.links().contains_key((x, q)) && pending_in(del@, q, qi as int) by {
                                assert(del@[k] == d0[k]);
                                if d0.contains(x) {
                                    let j = choose|j: int| 0 <= j < d0.len() && d0[j] == x;
                                    assert(del@[j] == x);
                                } else {
                                    let q = choose|q: u128| #[trigger] t.links().contains_key((x, q)) && pending_in(d0, q, qi as int);
                                    if d0.contains(q) {
                                        let j = choose|j: int| qi <= j < d0.len() && d0[j] == q;
                                        assert(del@[j] == q);
                                    } else if q == c {
                                        assert(del@[d0.len() as int] == q);
                                    }
                                    assert(pending_in(del@, q, qi as int));
                                }
                            }
                            assert forall|j: int| 0 <= j < ci + 1 implies del@.contains(#[trigger] cs@[j]) || exists|q: u128|
                                #[trigger] t.links().contains_key((cs@[j], q)) && pending_in(del@, q, qi + 1) by {
                                if j == ci {
                                    assert(del@[d0.len() as int] == c);
                                } else if d0.contains(cs@[j]) {
                                    let w = choose|w: int| 0 <= w < d0.len() && d0[w] == cs@[j];
                                    assert(del@[w] == cs@[j]);
                                } else {
                                    let q = choose|q: u128| #[trigger] t.links().contains_key((cs@[j], q)) && pending_in(d0, q, qi + 1);
                                    if d0.contains(q) {
                                        let w = choose|w: int| qi + 1 <= w < d0.len() && d0[w] == q;
                                        assert(del@[w] == q);
                                    } else if q == c {
                                        assert(del@[d0.len() as int] == q);
                                    }
                                    assert(pending_in(del@, q, qi + 1));
                                }
                            }
                        }
                    } else {
                        proof {
                            assert(t.links().contains_key((c, missing)));
                            assert(pending_in(del@, missing, qi + 1));
                        }
                    }
                }
                ci = ci + 1;
            }
            proof {
                assert forall|k: int, c: u128| 0 <= k < qi + 1 && #[trigger] t.links().contains_key((c, del@[k]))
                    implies del@.contains(c) || exists|q: u128| #[trigger] t.links().contains_key((c, q)) && pending_in(del@, q, qi + 1) by {
                    if k == qi {
                        assert(t.children_of(cur).contains(c));
                        assert(cs@.to_set().contains(c));
                        let j = choose|j: int| 0 <= j < cs@.len() && cs@[j] == c;
                        assert(del@.contains(cs@[j]) || exists|q: u128|
                            #[trigger] t.links().contains_key((cs@[j], q)) && pending_in(del@, q, qi + 1));
                    } else if !del@.contains(c) {
                        let q = choose|q: u128| #[trigger] t.links().contains_key((c, q)) && pending_in(del@, q, qi as int);
                        if del@.contains(q) {
                            let w = choose|w: int| qi <= w < del@.len() && del@[w] == q;
                            if w == qi {
                                assert(t.children_of(cur).contains(c));
                                assert(cs@.to_set().contains(c));
                                let j = choose|j: int| 0 <= j < cs@.len() && cs@[j] == c;
                                assert(del@.contains(cs@[j]) || exists|q2: u128|
                                    #[trigger] t.links().contains_key((cs@[j], q2)) && pending_in(del@, q2, qi + 1));
                            } else {
                                assert(pending_in(del@, q, qi + 1));
                            }
                        }
                    }
                }
            }
            qi = qi + 1;
        }
        let ghost s = del@.to_set();
        proof {
            assert(orphan_closed(t, root, s)) by {
                assert(s.contains(root)) by {
                    assert(del@[0] == root);
                }
                assert forall|m: u128| #[trigger] s.contains(m) && m != root implies t.reqs().contains_key(m)
                    && !t.parents_of(m).is_empty() && t.parents_of(m).subset_of(s) by {
                    let k = choose|k: int| 0 <= k < del@.len() && del@[k] == m;
                    assert(k != 0);
                }
                assert forall|c: u128, p: u128|
                    #[trigger] t.links().contains_key((c, p)) && s.contains(p) && t.parents_of(c).subset_of(s) implies s.contains(c) by {
                    let k = choose|k: int| 0 <= k < del@.len() && del@[k] == p;
                    if !del@.contains(c) {
                        let q = choose|q: u128| #[trigger] t.links().contains_key((c, q)) && pending_in(del@, q, qi as int);
                        assert(t.parents_of(c).contains(q));
                    }
                }
            }
        }
        proof {
            assert(least_orphan_closed(t, root, s));
        }
        let found = self.hrids_for(&del);
        let r = crate::sorting::sort_hrids(found);
        proof {
            assert(hrids_of(t, s) == hrid_set(found@));
            assert(hrid_set(r@) == crate::sorting::hrid_values(r@));
        }
        r
    }
}


// ---------------------------------------------------------------------------
// Flushing: which files to write and which to remove
// ---------------------------------------------------------------------------

/// `q` holds the content and parent links that the tree records for `u`.
pub open spec fn holds(t: Tree, u: u128, q: Requirement) -> bool {
    &&& t.reqs().contains_key(u)
    &&& q.uuid == u
    &&& q.hrid@ == t.reqs()[u].hrid
    &&& q.title@ == t.reqs()[u].title
    &&& q.body@ == t.reqs()[u].body
    &&& tags_view(q.tags@) == t.reqs()[u].tags
    &&& q.created == t.reqs()[u].created
    &&& t.lists_parent_links(u, parents_view(q.parents@))
}

/// The UUIDs of a list of pending writes.
pub open spec fn write_uuids(w: Seq<(u128, Requirement, Vec<String>)>) -> Seq<u128> {
    w.map_values(|x: (u128, Requirement, Vec<String>)| x.0)
}

impl Directory {
    /// The recorded files of all requirements that have one.
    pub open spec fn live_paths(&self) -> Set<Seq<Seq<char>>> {
        Set::new(|p: Seq<Seq<char>>| exists|u: u128| #[trigger] self.path_map().contains_key(u) && self.path_map()[u] == p)
    }

    /// The files to write: one for each requirement marked for rewriting
    /// that still exists, with its content and its file (its recorded file,
    /// or its canonical one, which is then recorded). Requirements that no
    /// longer exist are unmarked.
    pub fn pending_writes(&mut self) -> (r: Vec<(u128, Requirement, Vec<String>)>)
        requires
            old(self).wf(),
        ensures
            final(self).wf(),
            write_uuids(r@).no_duplicates(),
            write_uuids(r@).to_set() == old(self).dirty_set().intersect(old(self).tree_view().reqs().dom()),
            forall|i: int| 0 <= i < r@.len() ==> holds(old(self).tree_view(), (#[trigger] r@[i]).0, r@[i].1),
            forall|i: int| 0 <= i < r@.len() ==> final(self).path_map().contains_key((#[trigger] r@[i]).0)
                && final(self).path_map()[r@[i].0] == texts(r@[i].2@),
            forall|u: u128| #[trigger] old(self).path_map().contains_key(u) ==> final(self).path_map().contains_key(u)
                && final(self).path_map()[u] == old(self).path_map()[u],
            forall|u: u128| #[trigger] final(self).path_map().contains_key(u) && !old(self).path_map().contains_key(u)
                ==> old(self).dirty_set().contains(u) && old(self).tree_view().reqs().contains_key(u)
                && final(self).path_map()[u] == old(self).canonical(old(self).tree_view().reqs()[u].hrid),
            final(self).dirty_set() == old(self).dirty_set().intersect(old(self).tree_view().reqs().dom()),
            final(self).tree_view() == old(self).tree_view(),
            final(self).config_view() == old(self).config_view(),
            final(self).deletion_set() == old(self).deletion_set(),
    {
        let ghost t = self.tree_view();
        let ghost d0 = self.dirty@;
        let mut kept: Vec<u128> = Vec::new();
        let mut out: Vec<(u128, Requirement, Vec<String>)> = Vec::new();
        let mut i: usize = 0;
        while i < self.dirty.len()
            invariant
                self.wf(),
                t == self.tree_view(),
                t == old(self).tree_view(),
                self.config == old(self).config,
                self.deletions == old(self).deletions,
                self.dirty@ == d0,
                d0 == old(self).dirty@,
                i <= d0.len(),
                kept@ == write_uuids(out@),
                kept@.no_duplicates(),
                kept@.to_set() == d0.take(i as int).to_set().intersect(t.reqs().dom()),
                forall|j: int| 0 <= j < out@.len() ==> holds(t, (#[trigger] out@[j]).0, out@[j].1),
                forall|j: int| 0 <= j < out@.len() ==> self.path_map().contains_key((#[trigger] out@[j]).0)
                    && self.path_map()[out@[j].0] == texts(out@[j].2@),
                forall|u: u128| #[trigger] old(self).path_map().contains_key(u) ==> self.path_map().contains_key(u)
                    && self.path_map()[u] == old(self).path_map()[u],
                forall|u: u128| #[trigger] self.path_map().contains_key(u) && !old(self).path_map().contains_key(u)
                    ==> d0.take(i as int).contains(u) && t.reqs().contains_key(u)
                    && self.path_map()[u] == old(self).canonical(t.reqs()[u].hrid),
            decreases d0.len() - i,
        {
            let u = self.dirty[i];
            let ghost before_kept = kept@;
            proof {
                assert(d0.take(i + 1) =~= d0.take(i as int).push(u));
                d0.take(i as int).lemma_push_to_set_commute(u);
            }
            if !vec_contains(&kept, u) {
                match self.tree.get_requirement(u) {
                    None => {
                        proof {
                            assert(kept@.to_set() =~= d0.take(i + 1).to_set().intersect(t.reqs().dom()));
                        }
                    },
                    Some(q) => {
                        let path = match self.find_path(u) {
                            Some(k) => copy_path(&self.paths[k].1),
                            None => {
                                let c = self.canonical_path_for(&q.hrid);
                                let c2 = copy_path(&c);
                                self.set_path(u, c);
                                c2
                            },
                        };
                        kept.push(u);
                        out.push((u, q, path));
                        proof {
                            assert(d0.take(i + 1)[i as int] == u);
                            assert forall|x: u128| #[trigger] self.path_map().contains_key(x) && !old(self).path_map().contains_key(x)
                                implies d0.take(i + 1).contains(x) && t.reqs().contains_key(x)
                                && self.path_map()[x] == old(self).canonical(t.reqs()[x].hrid) by {
                                if x != u {
                                    let j = choose|j: int| 0 <= j < d0.take(i as int).len() && d0.take(i as int)[j] == x;
                                    assert(d0.take(i + 1)[j] == x);
                                }
                            }
                            assert(write_uuids(out@) =~= before_kept.push(u));
                            before_kept.lemma_push_to_set_commute(u);
                            assert(kept@.to_set() =~= d0.take(i + 1).to_set().intersect(t.reqs().dom()));
                            assert(kept@.no_duplicates()) by {
                                assert forall|a: int, b: int| 0 <= a < kept@.len() && 0 <= b < kept@.len() && a != b
                                    implies kept@[a] != kept@[b] by {
                                    if a == before_kept.len() as int && b < before_kept.len() {
                                        assert(before_kept.contains(kept@[b]));
                                    }
                                    if b == before_kept.len() as int && a < before_kept.len() {
                                        assert(before_kept.contains(kept@[a]));
                                    }
                                }
                            }
                        }
                    },
                }
            } else {
                proof {
                    assert(kept@.to_set() =~= d0.take(i + 1).to_set().intersect(t.reqs().dom()));
                }
            }
            i = i + 1;
        }
        let ghost pm = self.path_map();
        proof {
            assert(d0.take(i as int) =~= d0);
        }
        self.dirty = kept;
        proof {
            assert(self.path_map() == pm);
            assert forall|x: u128| #[trigger] self.path_map().contains_key(x) && !old(self).path_map().contains_key(x)
                implies old(self).dirty_set().contains(x) && t.reqs().contains_key(x)
                && self.path_map()[x] == old(self).canonical(t.reqs()[x].hrid) by {
                assert(pm.contains_key(x));
                assert(d0.take(i as int).contains(x));
            }
        }
        out
    }

    /// Records that the file of `uuid` was written: it is no longer marked
    /// for rewriting.
    pub fn record_written(&mut self, uuid: u128)
        requires
            old(self).wf(),
        ensures
            final(self).wf(),
            final(self).dirty_set() == old(self).dirty_set().remove(uuid),
            final(self).tree_view() == old(self).tree_view(),
            final(self).config_view() == old(self).config_view(),
            final(self).path_map() == old(self).path_map(),
            final(self).deletion_set() == old(self).deletion_set(),
    {
        let mut kept: Vec<u128> = Vec::new();
        let mut i: usize = 0;
        while i < self.dirty.len()
            invariant
                i <= self.dirty@.len(),
                kept@.to_set() == self.dirty@.take(i as int).to_set().remove(uuid),
            decreases self.dirty@.len() - i,
        {
            let u = self.dirty[i];
            let ghost before = kept@;
            proof {
                assert(self.dirty@.take(i + 1) =~= self.dirty@.take(i as int).push(u));
                self.dirty@.take(i as int).lemma_push_to_set_commute(u);
            }
            if u != uuid {
                kept.push(u);
                proof {
                    before.lemma_push_to_set_commute(u);
                }
            }
            proof {
                assert(kept@.to_set() =~= self.dirty@.take(i + 1).to_set().remove(uuid));
            }
            i = i + 1;
        }
        proof {
            assert(self.dirty@.take(i as int) =~= self.dirty@);
        }
        self.dirty = kept;
    }

    /// Whether `p` is the recorded file of some requirement.
    fn is_live(&self, p: &Vec<String>) -> (r: bool)
        requires
            self.wf(),
        ensures
            r == self.live_paths().contains(texts(p@)),
    {
        let ghost pt = paths_text(self.paths@);
        let mut i: usize = 0;
        while i < self.paths.len()
            invariant
                self.wf(),
                pt == paths_text(self.paths@),
                i <= self.paths@.len(),
                forall|j: int| 0 <= j < i ==> texts(self.paths@[j].1@) != texts(p@),
            decreases self.paths@.len() - i,
        {
            if same_path(&self.paths[i].1, p) {
                proof {
                    assert(pt[i as int] == path_text(self.paths@[i as int]));
                    lemma_keyed_at(pt, i as int);
                    assert(self.path_map().contains_key(self.paths@[i as int].0));
                }
                return true;
            }
            i = i + 1;
        }
        proof {
            if self.live_paths().contains(texts(p@)) {
                let u = choose|u: u128| #[trigger] self.path_map().contains_key(u) && self.path_map()[u] == texts(p@);
                let j = choose|j: int| 0 <= j < pt.len() && pt[j].0 == u;
                assert(pt[j] == path_text(self.paths@[j]));
                lemma_keyed_at(pt, j);
            }
        }
        false
    }

    /// Settles the queued removals once the writes are done. Files that are
    /// again some requirement's file are dropped from the queue. When every
    /// write succeeded the rest are handed back to be removed and the queue
    /// is emptied; otherwise nothing is removed and they stay queued.
    pub fn take_deletions(&mut self, writes_failed: bool) -> (r: Vec<Vec<String>>)
        requires
            old(self).wf(),
        ensures
            final(self).wf(),
            comp_lists(r@).to_set() == if writes_failed {
                Set::empty()
            } else {
                old(self).deletion_set().difference(old(self).live_paths())
            },
            final(self).deletion_set() == if writes_failed {
                old(self).deletion_set().difference(old(self).live_paths())
            } else {
                Set::empty()
            },
            final(self).tree_view() == old(self).tree_view(),
            final(self).config_view() == old(self).config_view(),
            final(self).path_map() == old(self).path_map(),
            final(self).dirty_set() == old(self).dirty_set(),
    {
        let ghost dl = comp_lists(self.deletions@);
        let mut keep: Vec<Vec<String>> = Vec::new();
        let mut i: usize = 0;
        while i < self.deletions.len()
            invariant
                self.wf(),
                dl == comp_lists(self.deletions@),
                i <= self.deletions@.len(),
                comp_lists(keep@).to_set() == dl.take(i as int).to_set().difference(self.live_paths()),
            decreases self.deletions@.len() - i,
        {
            let ghost before = comp_lists(keep@);
            proof {
                assert(dl.take(i + 1) =~= dl.take(i as int).push(dl[i as int]));
                dl.take(i as int).lemma_push_to_set_commute(dl[i as int]);
            }
            if !self.is_live(&self.deletions[i]) {
                keep.push(copy_path(&self.deletions[i]));
                proof {
                    assert(comp_lists(keep@) =~= before.push(dl[i as int]));
                    before.lemma_push_to_set_commute(dl[i as int]);
                }
            }
            proof {
                assert(comp_lists(keep@).to_set() =~= dl.take(i + 1).to_set().difference(self.live_paths()));
            }
            i = i + 1;
        }
        proof {
            assert(dl.take(i as int) =~= dl);
        }
        if writes_failed {
            self.deletions = keep;
            proof {
                assert(comp_lists(Seq::<Vec<String>>::empty()).to_set() =~= Set::<Seq<Seq<char>>>::empty());
            }
            Vec::new()
        } else {
            self.deletions = Vec::new();
            proof {
                assert(comp_lists(self.deletions@).to_set() =~= Set::<Seq<Seq<char>>>::empty());
            }
            keep
        }
    }

    /// Queues a file for removal again after removing it failed.
    pub fn defer_deletion(&mut self, path: Vec<String>)
        requires
            old(self).wf(),
        ensures
            final(self).wf(),
            final(self).deletion_set() == old(self).deletion_set().insert(texts(path@)),
            final(self).tree_view() == old(self).tree_view(),
            final(self).config_view() == old(self).config_view(),
            final(self).path_map() == old(self).path_map(),
            final(self).dirty_set() == old(self).dirty_set(),
    {
        self.queue_deletion(path);
    }
}


// ---------------------------------------------------------------------------
// Opening a store from loaded files
// ---------------------------------------------------------------------------

/// The abstract content of a requirement.
pub open spec fn req_spec(q: Requirement) -> ReqSpec {
    ReqSpec { hrid: q.hrid@, title: q.title@, body: q.body@, tags: tags_view(q.tags@), created: q.created }
}

/// The requirements of loaded files, by UUID (a later file wins).
pub open spec fn loaded_reqs(s: Seq<(Requirement, Vec<String>)>) -> Map<u128, ReqSpec>
    decreases s.len(),
{
    if s.len() == 0 {
        Map::empty()
    } else {
        loaded_reqs(s.drop_last()).insert(s.last().0.uuid, req_spec(s.last().0))
    }
}

/// The links recorded in loaded files.
pub open spec fn loaded_links(s: Seq<(Requirement, Vec<String>)>) -> Map<(u128, u128), ParentView>
    decreases s.len(),
{
    if s.len() == 0 {
        Map::empty()
    } else {
        with_parent_links(loaded_links(s.drop_last()), s.last().0.uuid, parents_view(s.last().0.parents@))
    }
}

/// The graph nodes of loaded files: each requirement and each parent it
/// names.
pub open spec fn loaded_nodes(s: Seq<(Requirement, Vec<String>)>) -> Set<u128>
    decreases s.len(),
{
    if s.len() == 0 {
        Set::empty()
    } else {
        loaded_nodes(s.drop_last()).insert(s.last().0.uuid).union(firsts(parents_view(s.last().0.parents@)).to_set())
    }
}

/// No two loaded files share a UUID or an HRID.
pub open spec fn loaded_distinct(s: Seq<(Requirement, Vec<String>)>) -> bool {
    forall|a: int, b: int|
        0 <= a < s.len() && 0 <= b < s.len() && a != b ==> s[a].0.uuid != s[b].0.uuid && s[a].0.hrid@ != s[b].0.hrid@
}

/// The loaded files whose kind the configuration does not allow, with
/// their kinds.
pub open spec fn disallowed_files(c: ConfigView, s: Seq<(Requirement, Vec<String>)>) -> Seq<(Seq<Seq<char>>, Seq<char>)>
    decreases s.len(),
{
    if s.len() == 0 {
        Seq::empty()
    } else {
        let rest = disallowed_files(c, s.drop_last());
        if kind_allowed(c, s.last().0.hrid@.kind) {
            rest
        } else {
            rest.push((texts(s.last().1@), s.last().0.hrid@.kind))
        }
    }
}

/// A file that could not be read as a requirement, with the reason.
pub open spec fn failure_text(f: (Vec<String>, String)) -> (Seq<Seq<char>>, Seq<char>) {
    (texts(f.0@), f.1@)
}

proof fn lemma_loaded_reqs(s: Seq<(Requirement, Vec<String>)>)
    requires
        loaded_distinct(s),
    ensures
        forall|u: u128| #[trigger] loaded_reqs(s).contains_key(u) <==> exists|j: int| 0 <= j < s.len() && s[j].0.uuid == u,
        forall|j: int| 0 <= j < s.len() ==> #[trigger] loaded_reqs(s)[s[j].0.uuid] == req_spec(s[j].0),
    decreases s.len(),
{
    if s.len() > 0 {
        let t = s.drop_last();
        assert(loaded_distinct(t)) by {
            assert forall|a: int, b: int| 0 <= a < t.len() && 0 <= b < t.len() && a != b implies t[a].0.uuid != t[b].0.uuid
                && t[a].0.hrid@ != t[b].0.hrid@ by {
                assert(t[a] == s[a] && t[b] == s[b]);
            }
        }
        lemma_loaded_reqs(t);
        assert forall|u: u128| #[trigger] loaded_reqs(s).contains_key(u) <==> exists|j: int| 0 <= j < s.len() && s[j].0.uuid == u by {
            if loaded_reqs(t).contains_key(u) {
                let j = choose|j: int| 0 <= j < t.len() && t[j].0.uuid == u;
                assert(s[j] == t[j]);
            }
            if exists|j: int| 0 <= j < s.len() && s[j].0.uuid == u {
                let j = choose|j: int| 0 <= j < s.len() && s[j].0.uuid == u;
                if j < t.len() {
                    assert(t[j] == s[j]);
                }
            }
        }
        assert forall|j: int| 0 <= j < s.len() implies #[trigger] loaded_reqs(s)[s[j].0.uuid] == req_spec(s[j].0) by {
            if j < t.len() {
                assert(t[j] == s[j]);
                assert(s[j].0.uuid != s[s.len() - 1].0.uuid);
                assert(loaded_reqs(t)[t[j].0.uuid] == req_spec(t[j].0));
            }
        }
    }
}

/// Why a store could not be opened.
#[derive(Debug)]
pub enum DirectoryLoadError {
    /// Files that are not requirements, with the reasons; refused unless
    /// the configuration allows unrecognised files.
    UnrecognisedFiles(Vec<(Vec<String>, String)>),
    /// Two files hold the same UUID or HRID; the file being added.
    Duplicate { error: TreeInsertError, path: Vec<String> },
    /// Requirements whose kind is not allowed, with their files and kinds.
    DisallowedKinds { files: Vec<(Vec<String>, String)>, allowed_kinds: Vec<String> },
}

/// What opening a store gives, from its configuration, the requirements
/// read from files (each with its file) and the files that could not be
/// read as requirements: unrecognised files are refused unless allowed,
/// then requirements of kinds the configuration does not allow, then the
/// first duplicate UUID or HRID; otherwise the store holds exactly the
/// loaded requirements, links and paths, with nothing pending.
pub open spec fn load_outcome(
    c: ConfigView,
    loaded: Seq<(Requirement, Vec<String>)>,
    unrecognised: Seq<(Vec<String>, String)>,
    r: Result<Directory, DirectoryLoadError>,
) -> bool {
    match r {
        Err(DirectoryLoadError::UnrecognisedFiles(files)) => {
            &&& !c.allow_unrecognised
            &&& unrecognised.len() > 0
            &&& files@.map_values(|f: (Vec<String>, String)| failure_text(f))
                == unrecognised.map_values(|f: (Vec<String>, String)| failure_text(f))
        },
        Err(DirectoryLoadError::DisallowedKinds { files, allowed_kinds }) => {
            &&& c.allow_unrecognised || unrecognised.len() == 0
            &&& files@.len() > 0
            &&& files@.map_values(|f: (Vec<String>, String)| failure_text(f)) == disallowed_files(c, loaded)
            &&& texts(allowed_kinds@) == c.allowed_kinds
        },
        Err(DirectoryLoadError::Duplicate { error, path }) => {
            &&& c.allow_unrecognised || unrecognised.len() == 0
            &&& disallowed_files(c, loaded).len() == 0
            &&& exists|i: int| 0 <= i < loaded.len() && texts(path@) == texts(#[trigger] loaded[i].1@)
                && loaded_distinct(loaded.take(i)) && match error {
                TreeInsertError::DuplicateUuid { uuid } => uuid == loaded[i].0.uuid && exists|j: int|
                    0 <= j < i && loaded[j].0.uuid == uuid,
                TreeInsertError::DuplicateHrid { hrid, new_uuid, existing_uuid } => {
                    &&& hrid@ == loaded[i].0.hrid@
                    &&& new_uuid == loaded[i].0.uuid
                    &&& forall|j: int| 0 <= j < i ==> loaded[j].0.uuid != new_uuid
                    &&& exists|j: int| 0 <= j < i && loaded[j].0.uuid == existing_uuid && loaded[j].0.hrid@ == hrid@
                },
            }
        },
        Ok(d) => {
            &&& d.wf()
            &&& c.allow_unrecognised || unrecognised.len() == 0
            &&& disallowed_files(c, loaded).len() == 0
            &&& loaded_distinct(loaded)
            &&& d.tree_view().reqs() == loaded_reqs(loaded)
            &&& d.tree_view().links() == loaded_links(loaded)
            &&& d.tree_view().nodes() == loaded_nodes(loaded)
            &&& d.config_view() == c
            &&& d.path_map().dom() == loaded_reqs(loaded).dom()
            &&& forall|i: int| 0 <= i < loaded.len() ==> #[trigger] d.path_map()[loaded[i].0.uuid] == texts(loaded[i].1@)
            &&& d.dirty_set().is_empty()
            &&& d.deletion_set().is_empty()
        },
    }
}

impl Directory {
    /// A store holding the requirements read from files: each with the file
    /// it was read from. `unrecognised` lists the files that could not be
    /// read as requirements.
    pub fn load(
        config: Config,
        loaded: Vec<(Requirement, Vec<String>)>,
        unrecognised: Vec<(Vec<String>, String)>,
    ) -> (r: Result<Directory, DirectoryLoadError>)
        requires
            config.wf(),
        ensures
            load_outcome(config.view(), loaded@, unrecognised@, r),
    {
        if !config.allows_unrecognised() && unrecognised.len() > 0 {
            return Err(DirectoryLoadError::UnrecognisedFiles(unrecognised));
        }
        if config.allowed_kinds().len() > 0 {
            let mut files: Vec<(Vec<String>, String)> = Vec::new();
            let mut i: usize = 0;
            while i < loaded.len()
                invariant
                    config.wf(),
                    i <= loaded@.len(),
                    files@.map_values(|f: (Vec<String>, String)| failure_text(f)) == disallowed_files(
                        config.view(),
                        loaded@.take(i as int),
                    ),
                decreases loaded@.len() - i,
            {
                proof {
                    assert(loaded@.take(i + 1).drop_last() =~= loaded@.take(i as int));
                }
                let ghost before = files@.map_values(|f: (Vec<String>, String)| failure_text(f));
                if !config.is_kind_allowed(loaded[i].0.hrid.kind()) {
                    files.push((copy_path(&loaded[i].1), string_of(loaded[i].0.hrid.kind())));
                    proof {
                        assert(files@.map_values(|f: (Vec<String>, String)| failure_text(f)) =~= before.push(
                            (texts(loaded@[i as int].1@), loaded@[i as int].0.hrid@.kind),
                        ));
                    }
                }
                i = i + 1;
            }
            proof {
                assert(loaded@.take(i as int) =~= loaded@);
            }
            if files.len() > 0 {
                let mut allowed_kinds: Vec<String> = Vec::new();
                let ak = config.allowed_kinds();
                let mut k: usize = 0;
                while k < ak.len()
                    invariant
                        k <= ak@.len(),
                        allowed_kinds@.len() == k,
                        forall|j: int| 0 <= j < k ==> #[trigger] allowed_kinds@[j]@ == ak@[j]@,
                    decreases ak@.len() - k,
                {
                    allowed_kinds.push(copy_string(&ak[k]));
                    k = k + 1;
                }
                proof {
                    assert(texts(allowed_kinds@) =~= ak@.map_values(|s: String| s@));
                }
                return Err(DirectoryLoadError::DisallowedKinds { files, allowed_kinds });
            }
        } else {
            proof {
                assert forall|n: int| 0 <= n <= loaded@.len() implies #[trigger] disallowed_files(config.view(), loaded@.take(n)).len() == 0 by {
                    lemma_disallowed_none(config.view(), loaded@.take(n));
                }
                assert(loaded@.take(loaded@.len() as int) =~= loaded@);
            }
        }
        let mut tree = Tree::with_capacity(loaded.len());
        let mut paths: Vec<(u128, Vec<String>)> = Vec::new();
        let mut i: usize = 0;
        proof {
            assert(tree.reqs() =~= loaded_reqs(loaded@.take(0)));
            assert(tree.links() =~= loaded_links(loaded@.take(0)));
            assert(tree.nodes() =~= loaded_nodes(loaded@.take(0)));
        }
        while i < loaded.len()
            invariant
                i <= loaded@.len(),
                config.wf(),
                config.view().allow_unrecognised || unrecognised@.len() == 0,
                disallowed_files(config.view(), loaded@).len() == 0,
                tree.wf(),
                loaded_distinct(loaded@.take(i as int)),
                tree.reqs() == loaded_reqs(loaded@.take(i as int)),
                tree.links() == loaded_links(loaded@.take(i as int)),
                tree.nodes() == loaded_nodes(loaded@.take(i as int)),
                paths_text(paths@) == loaded@.take(i as int).map_values(
                    |x: (Requirement, Vec<String>)| (x.0.uuid, texts(x.1@)),
                ),
            decreases loaded@.len() - i,
        {
            let ghost pre = loaded@.take(i as int);
            let ghost next = loaded@.take(i + 1);
            proof {
                assert(next.drop_last() =~= pre);
                assert(next.last() == loaded@[i as int]);
                lemma_loaded_reqs(pre);
            }
            let q = loaded[i].0.clone();
            let ghost t_before = tree;
            match tree.insert(q) {
                Err(error) => {
                    proof {
                        match &error {
                            TreeInsertError::DuplicateUuid { uuid } => {
                                let j = choose|j: int| 0 <= j < pre.len() && pre[j].0.uuid == *uuid;
                                assert(loaded@[j] == pre[j]);
                            },
                            TreeInsertError::DuplicateHrid { hrid, new_uuid, existing_uuid } => {
                                let j = choose|j: int| 0 <= j < pre.len() && pre[j].0.uuid == *existing_uuid;
                                assert(loaded@[j] == pre[j]);
                                assert(tree.reqs()[*existing_uuid] == req_spec(pre[j].0));
                                assert forall|j2: int| 0 <= j2 < i implies loaded@[j2].0.uuid != *new_uuid by {
                                    assert(loaded@[j2] == pre[j2]);
                                }
                            },
                        }
                        assert(texts(loaded@[i as int].1@) == texts(loaded@[i as int].1@));
                    }
                    return Err(DirectoryLoadError::Duplicate { error, path: copy_path(&loaded[i].1) });
                },
                Ok(()) => {},
            }
            let ghost before_paths = paths_text(paths@);
            paths.push((loaded[i].0.uuid, copy_path(&loaded[i].1)));
            proof {
                assert(paths_text(paths@) =~= before_paths.push((loaded@[i as int].0.uuid, texts(loaded@[i as int].1@))));
                assert(paths_text(paths@) =~= next.map_values(|x: (Requirement, Vec<String>)| (x.0.uuid, texts(x.1@))));
                assert(loaded_distinct(next)) by {
                    assert forall|a: int, b: int| 0 <= a < next.len() && 0 <= b < next.len() && a != b implies next[a].0.uuid
                        != next[b].0.uuid && next[a].0.hrid@ != next[b].0.hrid@ by {
                        if a < i && b < i {
                            assert(next[a] == pre[a] && next[b] == pre[b]);
                        } else if a == i {
                            assert(pre[b] == next[b]);
                            assert(loaded_reqs(pre).contains_key(pre[b].0.uuid));
                            assert(loaded_reqs(pre)[pre[b].0.uuid] == req_spec(pre[b].0));
                            assert(t_before.reqs()[pre[b].0.uuid].hrid == pre[b].0.hrid@);
                        } else {
                            assert(pre[a] == next[a]);
                            assert(loaded_reqs(pre).contains_key(pre[a].0.uuid));
                            assert(loaded_reqs(pre)[pre[a].0.uuid] == req_spec(pre[a].0));
                            assert(t_before.reqs()[pre[a].0.uuid].hrid == pre[a].0.hrid@);
                        }
                    }
                }
            }
            i = i + 1;
        }
        proof {
            assert(loaded@.take(i as int) =~= loaded@);
        }
        let d = Directory { tree, config, dirty: Vec::new(), paths, deletions: Vec::new() };
        proof {
            let pt = paths_text(d.paths@);
            lemma_loaded_reqs(loaded@);
            assert(keys_distinct(pt)) by {
                assert forall|a: int, b: int| 0 <= a < pt.len() && 0 <= b < pt.len() && a != b implies pt[a].0 != pt[b].0 by {
                    assert(pt[a].0 == loaded@[a].0.uuid);
                    assert(pt[b].0 == loaded@[b].0.uuid);
                }
            }
            assert forall|u: u128| d.path_map().dom().contains(u) <==> loaded_reqs(loaded@).dom().contains(u) by {
                if has_key(pt, u) {
                    let j = choose|j: int| 0 <= j < pt.len() && pt[j].0 == u;
                    assert(loaded@[j].0.uuid == u);
                }
                if loaded_reqs(loaded@).contains_key(u) {
                    let j = choose|j: int| 0 <= j < loaded@.len() && loaded@[j].0.uuid == u;
                    assert(pt[j].0 == u);
                }
            }
            assert(d.path_map().dom() =~= loaded_reqs(loaded@).dom());
            assert forall|j: int| 0 <= j < loaded@.len() implies #[trigger] d.path_map()[loaded@[j].0.uuid] == texts(loaded@[j].1@) by {
                lemma_keyed_at(pt, j);
            }
            assert(d.dirty_set() =~= Set::<u128>::empty());
            assert(d.deletion_set() =~= Set::<Seq<Seq<char>>>::empty());
        }
        Ok(d)
    }

    /// [`Directory::load`] with some files treated as if they did not
    /// exist: those whose path, below `root`, resolves lexically (see
    /// [`normalised_path`]) to the same path as one of `ignored`. Known
    /// non-requirement files kept under the root, such as a book's
    /// `SUMMARY.md`, are then not refused as unrecognised.
    pub fn new_ignoring(
        config: Config,
        root: &Vec<String>,
        loaded: Vec<(Requirement, Vec<String>)>,
        unrecognised: Vec<(Vec<String>, String)>,
        ignored: &Vec<Vec<String>>,
    ) -> (r: Result<Directory, DirectoryLoadError>)
        requires
            config.wf(),
        ensures
            load_outcome(
                config.view(),
                kept_loaded(loaded@, texts(root@), comp_lists(ignored@)),
                kept_unrecognised(unrecognised@, texts(root@), comp_lists(ignored@)),
                r,
            ),
    {
        let ghost rt = texts(root@);
        let ghost ign = comp_lists(ignored@);
        let mut normal: Vec<Vec<String>> = Vec::new();
        let mut k: usize = 0;
        while k < ignored.len()
            invariant
                k <= ignored@.len(),
                normal@.len() == k,
                forall|j: int| 0 <= j < k ==> texts(#[trigger] normal@[j]@) == normalised_path(texts(ignored@[j]@)),
            decreases ignored@.len() - k,
        {
            normal.push(lexical_normal(ignored[k].as_slice()));
            k = k + 1;
        }
        let ghost l0 = loaded@;
        let ghost u0 = unrecognised@;
        let mut rev: Vec<(Requirement, Vec<String>)> = reversed(loaded);
        let ghost all = rev@.reverse();
        proof {
            assert(all =~= l0);
            assert(all =~= all.take(all.len() - rev@.len()) + rev@.reverse());
        }
        let mut kept: Vec<(Requirement, Vec<String>)> = Vec::new();
        while rev.len() > 0
            invariant
                rev@.len() <= all.len(),
                all == all.take(all.len() - rev@.len()) + rev@.reverse(),
                normal@.len() == ignored@.len(),
                forall|j: int| 0 <= j < normal@.len() ==> texts(#[trigger] normal@[j]@) == normalised_path(ign[j]),
                ign == comp_lists(ignored@),
                rt == texts(root@),
                kept@ == kept_loaded(all.take(all.len() - rev@.len()), rt, ign),
            decreases rev@.len(),
        {
            let ghost n = all.len() - rev@.len();
            let ghost rb = rev@;
            let x = rev.pop().unwrap();
            proof {
                assert(rb == rev@.push(x));
                assert(rb.reverse() =~= seq![x] + rev@.reverse());
                assert(all[n] == rb.reverse()[0]);
                assert(all.take(n + 1).drop_last() =~= all.take(n));
                assert(all.take(n + 1).last() == x);
                assert(all =~= all.take(n + 1) + rev@.reverse());
            }
            if !ignored_path(root, &x.1, &normal, Ghost(ign)) {
                kept.push(x);
            }
        }
        proof {
            assert(all.take(all.len() as int) =~= all);
        }
        let mut urev: Vec<(Vec<String>, String)> = reversed(unrecognised);
        let ghost uall = urev@.reverse();
        proof {
            assert(uall =~= u0);
            assert(uall =~= uall.take(uall.len() - urev@.len()) + urev@.reverse());
        }
        let mut ukept: Vec<(Vec<String>, String)> = Vec::new();
        while urev.len() > 0
            invariant
                urev@.len() <= uall.len(),
                uall == uall.take(uall.len() - urev@.len()) + urev@.reverse(),
                normal@.len() == ignored@.len(),
                forall|j: int| 0 <= j < normal@.len() ==> texts(#[trigger] normal@[j]@) == normalised_path(ign[j]),
                ign == comp_lists(ignored@),
                rt == texts(root@),
                ukept@ == kept_unrecognised(uall.take(uall.len() - urev@.len()), rt, ign),
            decreases urev@.len(),
        {
            let ghost n = uall.len() - urev@.len();
            let ghost rb = urev@;
            let x = urev.pop().unwrap();
            proof {
                assert(rb == urev@.push(x));
                assert(rb.reverse() =~= seq![x] + urev@.reverse());
                assert(uall[n] == rb.reverse()[0]);
                assert(uall.take(n + 1).drop_last() =~= uall.take(n));
                assert(uall.take(n + 1).last() == x);
                assert(uall =~= uall.take(n + 1) + urev@.reverse());
            }
            if !ignored_path(root, &x.0, &normal, Ghost(ign)) {
                ukept.push(x);
            }
        }
        proof {
            assert(uall.take(uall.len() as int) =~= uall);
        }
        Directory::load(config, kept, ukept)
    }
}

/// Whether a file, given by its path below `root`, resolves to the same
/// path as one of the `ignored` paths.
pub open spec fn is_ignored(root: Seq<Seq<char>>, path: Seq<Seq<char>>, ignored: Seq<Seq<Seq<char>>>) -> bool {
    exists|k: int| 0 <= k < ignored.len() && normalised_path(#[trigger] ignored[k]) == normalised_path(root + path)
}

/// The loaded requirements whose files are not ignored, in order.
pub open spec fn kept_loaded(
    s: Seq<(Requirement, Vec<String>)>,
    root: Seq<Seq<char>>,
    ignored: Seq<Seq<Seq<char>>>,
) -> Seq<(Requirement, Vec<String>)>
    decreases s.len(),
{
    if s.len() == 0 {
        s
    } else {
        let r = kept_loaded(s.drop_last(), root, ignored);
        if is_ignored(root, texts(s.last().1@), ignored) {
            r
        } else {
            r.push(s.last())
        }
    }
}

/// The unreadable files that are not ignored, in order.
pub open spec fn kept_unrecognised(
    s: Seq<(Vec<String>, String)>,
    root: Seq<Seq<char>>,
    ignored: Seq<Seq<Seq<char>>>,
) -> Seq<(Vec<String>, String)>
    decreases s.len(),
{
    if s.len() == 0 {
        s
    } else {
        let r = kept_unrecognised(s.drop_last(), root, ignored);
        if is_ignored(root, texts(s.last().0@), ignored) {
            r
        } else {
            r.push(s.last())
        }
    }
}

/// The items of a list in reverse order.
fn reversed<T>(v: Vec<T>) -> (r: Vec<T>)
    ensures
        r@ == v@.reverse(),
{
    let mut v = v;
    let ghost all = v@;
    let mut rev: Vec<T> = Vec::new();
    while v.len() > 0
        invariant
            all == v@ + rev@.reverse(),
        decreases v@.len(),
    {
        let ghost before = v@;
        let x = v.pop().unwrap();
        let ghost rb = rev@;
        rev.push(x);
        proof {
            assert(before == v@.push(x));
            assert(rev@.reverse() =~= seq![x] + rb.reverse());
            assert(all =~= v@ + rev@.reverse());
        }
    }
    proof {
        assert(v@ + rev@.reverse() =~= rev@.reverse());
        assert(rev@.reverse().reverse() =~= rev@);
        assert(all.reverse() =~= rev@);
    }
    rev
}

/// Whether the file at `path` below `root` resolves to one of the
/// `normal` paths, the resolved forms of `ign`.
fn ignored_path(root: &Vec<String>, path: &Vec<String>, normal: &Vec<Vec<String>>, Ghost(ign): Ghost<Seq<Seq<Seq<char>>>>) -> (r: bool)
    requires
        normal@.len() == ign.len(),
        forall|j: int| 0 <= j < normal@.len() ==> texts(#[trigger] normal@[j]@) == normalised_path(ign[j]),
    ensures
        r == is_ignored(texts(root@), texts(path@), ign),
{
    let mut full: Vec<String> = copy_path(root);
    let mut i: usize = 0;
    while i < path.len()
        invariant
            i <= path@.len(),
            texts(full@) == texts(root@) + texts(path@).take(i as int),
        decreases path@.len() - i,
    {
        let ghost before = texts(full@);
        full.push(copy_string(&path[i]));
        proof {
            assert(texts(full@) =~= before.push(path@[i as int]@));
            assert(texts(path@).take(i + 1) =~= texts(path@).take(i as int).push(path@[i as int]@));
        }
        i = i + 1;
    }
    proof {
        assert(texts(path@).take(path@.len() as int) =~= texts(path@));
    }
    let target = lexical_normal(full.as_slice());
    let mut k: usize = 0;
    while k < normal.len()
        invariant
            k <= normal@.len(),
            normal@.len() == ign.len(),
            forall|j: int| 0 <= j < normal@.len() ==> texts(#[trigger] normal@[j]@) == normalised_path(ign[j]),
            texts(target@) == normalised_path(texts(root@) + texts(path@)),
            forall|j: int| 0 <= j < k ==> normalised_path(#[trigger] ign[j]) != normalised_path(texts(root@) + texts(path@)),
        decreases normal@.len() - k,
    {
        if same_path(&normal[k], &target) {
            proof {
                assert(normalised_path(ign[k as int]) == normalised_path(texts(root@) + texts(path@)));
            }
            return true;
        }
        k = k + 1;
    }
    false
}

proof fn lemma_disallowed_none(c: ConfigView, s: Seq<(Requirement, Vec<String>)>)
    requires
        c.allowed_kinds.len() == 0,
    ensures
        disallowed_files(c, s).len() == 0,
    decreases s.len(),
{
    if s.len() > 0 {
        lemma_disallowed_none(c, s.drop_last());
    }
}

} // verus!
