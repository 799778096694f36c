//! Where a requirement's file lives, relative to the requirements root, and
//! which HRID a file's relative path names.
//!
//! Two layouts exist. With file-name paths the whole HRID names the file
//! (`SYSTEM-AUTH-REQ-001.md`); with namespace folders each namespace segment
//! and the kind is a folder and the padded id names the file
//! (`SYSTEM/AUTH/REQ/001.md`). A relative path is its list of components.

use vstd::prelude::*;

use crate::config::Config;
use crate::hrid::{
    Hrid, KindString, NamespaceSegment, SpecHrid, error_message, invalid_kind_message, lemma_display_is_join,
    lemma_display_parse_roundtrip, lemma_zero_padded, parse_usize, parse_usize_chars, segment_error_message,
    spec_display, spec_parse_hrid, valid_hrid, valid_kind, valid_segment, zero_padded, zero_padded_decimal,
    display_parts,
};
use crate::text::{
    append_chars, chars_of, copy_string, join, push_str, slice_range, str_eq, string_from_chars, string_of,
};

verus! {

/// The components of a requirement's file path below the root.
pub open spec fn path_components(h: SpecHrid, subfolders_are_namespaces: bool, digits: nat) -> Seq<Seq<char>> {
    if subfolders_are_namespaces {
        h.namespace.push(h.kind).push(zero_padded(h.id, digits) + ".md"@)
    } else {
        seq![spec_display(h, digits) + ".md"@]
    }
}

/// The path below the root of the file holding the requirement with this
/// HRID, as components.
pub fn construct_path_from_hrid(hrid: &Hrid, subfolders_are_namespaces: bool, digits: usize) -> (r: Vec<String>)
    ensures
        r@.map_values(|c: String| c@) == path_components(hrid@, subfolders_are_namespaces, digits as nat),
{
    proof {
        reveal_strlit(".md");
    }
    let mut r: Vec<String> = Vec::new();
    if subfolders_are_namespaces {
        let ns = hrid.namespace_segments();
        let mut i: usize = 0;
        while i < ns.len()
            invariant
                i <= ns@.len(),
                ns@.map_values(|s: NamespaceSegment| s@) == hrid@.namespace,
                r@.map_values(|c: String| c@) == hrid@.namespace.take(i as int),
            decreases ns@.len() - i,
        {
            let ghost r0 = r@;
            r.push(string_of(ns[i].as_str()));
            proof {
                assert(ns@[i as int]@ == ns@.map_values(|s: NamespaceSegment| s@)[i as int]);
                assert(ns@[i as int]@ == hrid@.namespace[i as int]);
                assert(r@ == r0.push(r@.last()));
                assert(r@.last()@ == ns@[i as int]@);
                assert(r@.map_values(|c: String| c@) =~= r0.map_values(|c: String| c@).push(r@.last()@));
                assert(hrid@.namespace.take(i + 1) =~= hrid@.namespace.take(i as int).push(hrid@.namespace[i as int]));
                assert(r@.map_values(|c: String| c@) =~= hrid@.namespace.take(i + 1));
            }
            i = i + 1;
        }
        r.push(string_of(hrid.kind()));
        let mut file = zero_padded_decimal(hrid.id(), digits);
        file.push('.');
        file.push('m');
        file.push('d');
        r.push(string_from_chars(file.as_slice()));
        proof {
            assert(hrid@.namespace.take(ns@.len() as int) =~= hrid@.namespace);
            assert(file@ =~= zero_padded(hrid@.id, digits as nat) + ".md"@);
            assert(r@.map_values(|c: String| c@) =~= path_components(hrid@, true, digits as nat));
        }
    } else {
        let mut name = hrid.to_string_with_digits(digits);
        push_str(&mut name, ".md");
        r.push(name);
        proof {
            assert(r@.map_values(|c: String| c@) =~= path_components(hrid@, false, digits as nat));
        }
    }
    r
}

/// `i` is the position of the last `.` in `s`.
pub open spec fn is_last_dot(s: Seq<char>, i: int) -> bool {
    &&& 0 <= i < s.len()
    &&& s[i] == '.'
    &&& forall|j: int| i < j < s.len() ==> #[trigger] s[j] != '.'
}

/// A file name without its extension, as `Path::with_extension("")` leaves
/// it: everything before the last `.`, unless that `.` starts the name or
/// the name is `..`.
pub open spec fn strip_extension(name: Seq<char>) -> Seq<char> {
    if name == ".."@ {
        name
    } else if exists|i: int| 0 <= i < name.len() && name[i] == '.' {
        let d = choose|d: int| is_last_dot(name, d);
        if d == 0 {
            name
        } else {
            name.take(d)
        }
    } else {
        name
    }
}

/// The components with the extension dropped from the last one.
pub open spec fn without_extension(c: Seq<Seq<char>>) -> Seq<Seq<char>> {
    if c.len() == 0 {
        c
    } else {
        c.drop_last().push(strip_extension(c.last()))
    }
}

/// The HRID that a path below the root names, or the reason it names none.
pub open spec fn path_hrid(c: Seq<Seq<char>>, subfolders_are_namespaces: bool) -> Result<SpecHrid, Seq<char>> {
    let comps = without_extension(c);
    if subfolders_are_namespaces {
        if comps.len() == 0 {
            Err("Path has no components"@)
        } else {
            let id_str = comps.last();
            match parse_usize(id_str) {
                None => Err("Invalid ID in path: "@ + id_str),
                Some(n) => {
                    if n == 0 {
                        Err("Invalid ID in path: "@ + id_str)
                    } else if comps.len() < 2 {
                        Err("Path must have at least KIND/ID"@)
                    } else {
                        let kind = comps[comps.len() - 2];
                        let ns = comps.take(comps.len() - 2);
                        if !valid_kind(kind) {
                            Err("Invalid KIND: "@ + invalid_kind_message(kind))
                        } else if exists|i: int| 0 <= i < ns.len() && !valid_segment(#[trigger] ns[i]) {
                            Err("Invalid namespace component: "@ + segment_error_message())
                        } else {
                            Ok(SpecHrid { namespace: ns, kind, id: n })
                        }
                    }
                },
            }
        }
    } else if comps.len() == 0 {
        Err("Cannot extract filename from path"@)
    } else {
        match spec_parse_hrid(comps.last()) {
            Ok(h) => Ok(h),
            Err(e) => Err(error_message(e)),
        }
    }
}

/// A file name without its extension.
fn strip_extension_exec(name: &String) -> (r: String)
    ensures
        r@ == strip_extension(name@),
{
    let v = chars_of(name.as_str());
    proof {
        reveal_strlit("..");
    }
    if v.len() == 2 && v[0] == '.' && v[1] == '.' {
        proof {
            assert(v@ =~= ".."@);
        }
        return copy_string(name);
    }
    proof {
        if name@ == ".."@ {
            assert(v@.len() == 2 && v@[0] == '.' && v@[1] == '.');
        }
    }
    let mut k: usize = v.len();
    while k > 0 && v[k - 1] != '.'
        invariant
            k <= v@.len(),
            forall|j: int| k <= j < v@.len() ==> #[trigger] v@[j] != '.',
        decreases k,
    {
        k = k - 1;
    }
    if k == 0 {
        proof {
            assert(!exists|i: int| 0 <= i < name@.len() && name@[i] == '.') by {
                if exists|i: int| 0 <= i < name@.len() && name@[i] == '.' {
                    let i = choose|i: int| 0 <= i < name@.len() && name@[i] == '.';
                    assert(v@[i] != '.');
                }
            }
        }
        return copy_string(name);
    }
    let d = k - 1;
    proof {
        assert(is_last_dot(v@, d as int));
        assert(exists|i: int| 0 <= i < name@.len() && name@[i] == '.') by {
            assert(name@[d as int] == '.');
        }
        let c = choose|c: int| is_last_dot(name@, c);
        assert(is_last_dot(name@, c));
        if c < d {
            assert(name@[d as int] != '.');
        }
        if c > d {
            assert(name@[c] != '.');
        }
    }
    if d == 0 {
        return copy_string(name);
    }
    string_from_chars(slice_range(v.as_slice(), 0, d).as_slice())
}

fn prefix_message(prefix: &str, rest: &str) -> (r: String)
    ensures
        r@ == prefix@ + rest@,
{
    let mut r = string_of(prefix);
    push_str(&mut r, rest);
    r
}

/// The HRID that a path below the root names, given as components; the
/// last component's extension is ignored.
#[verifier::loop_isolation(false)]
pub fn hrid_from_path(components: &[String], config: &Config) -> (r: Result<Hrid, String>)
    ensures
        match r {
            Ok(h) => path_hrid(components@.map_values(|c: String| c@), config.view().subfolders_are_namespaces)
                == Ok::<SpecHrid, Seq<char>>(h@),
            Err(e) => path_hrid(components@.map_values(|c: String| c@), config.view().subfolders_are_namespaces)
                == Err::<SpecHrid, Seq<char>>(e@),
        },
{
    let ghost cv = components@.map_values(|c: String| c@);
    let mut comps: Vec<String> = Vec::new();
    let n = components.len();
    let mut i: usize = 0;
    while i < n
        invariant
            n == components@.len(),
            cv == components@.map_values(|c: String| c@),
            i <= n,
            comps@.len() == i,
            forall|j: int| 0 <= j < i ==> #[trigger] comps@[j]@ == (if j == n - 1 {
                strip_extension(cv[j])
            } else {
                cv[j]
            }),
        decreases n - i,
    {
        if i + 1 == n {
            comps.push(strip_extension_exec(&components[i]));
        } else {
            comps.push(copy_string(&components[i]));
        }
        i = i + 1;
    }
    let ghost wv = without_extension(cv);
    proof {
        assert(comps@.map_values(|c: String| c@) =~= wv);
    }
    if config.subfolders_are_namespaces() {
        if n == 0 {
            return Err(string_of("Path has no components"));
        }
        let id_str = &comps[n - 1];
        let id_chars = chars_of(id_str.as_str());
        let id = match parse_usize_chars(id_chars.as_slice()) {
            Some(v) => v,
            None => {
                return Err(prefix_message("Invalid ID in path: ", id_str.as_str()));
            },
        };
        if id == 0 {
            return Err(prefix_message("Invalid ID in path: ", id_str.as_str()));
        }
        if n < 2 {
            return Err(string_of("Path must have at least KIND/ID"));
        }
        let kind = match KindString::new(copy_string(&comps[n - 2])) {
            Ok(k) => k,
            Err(e) => {
                return Err(prefix_message("Invalid KIND: ", e.to_string().as_str()));
            },
        };
        let mut namespace: Vec<NamespaceSegment> = Vec::new();
        let mut j: usize = 0;
        while j < n - 2
            invariant
                n == comps@.len(),
                n >= 2,
                j <= n - 2,
                wv == comps@.map_values(|c: String| c@),
                namespace@.map_values(|s: NamespaceSegment| s@) == wv.take(j as int),
                forall|t: int| 0 <= t < j ==> valid_segment(#[trigger] wv[t]),
            decreases n - 2 - j,
        {
            let ghost ns0 = namespace@;
            match NamespaceSegment::new(copy_string(&comps[j])) {
                Ok(seg) => {
                    namespace.push(seg);
                    proof {
                        assert(namespace@ == ns0.push(seg));
                        assert(comps@[j as int]@ == wv[j as int]);
                    }
                    proof {
                        assert(namespace@.map_values(|s: NamespaceSegment| s@) =~= wv.take(j + 1));
                    }
                },
                Err(e) => {
                    proof {
                        let ns = wv.take(n - 2);
                        assert(!valid_segment(ns[j as int]));
                    }
                    return Err(prefix_message("Invalid namespace component: ", e.as_str()));
                },
            }
            j = j + 1;
        }
        proof {
            let ns = wv.take(n - 2);
            assert(ns =~= wv.take(j as int));
            assert forall|t: int| 0 <= t < ns.len() implies valid_segment(#[trigger] ns[t]) by {
                assert(ns[t] == wv[t]);
            }
        }
        Ok(Hrid::new_with_namespace(namespace, kind, id))
    } else {
        if n == 0 {
            return Err(string_of("Cannot extract filename from path"));
        }
        match Hrid::parse(comps[n - 1].as_str()) {
            Ok(h) => Ok(h),
            Err(e) => Err(e.to_string()),
        }
    }
}


/// No character of `s` is `c`.
pub open spec fn free_of(s: Seq<char>, c: char) -> bool {
    forall|k: int| 0 <= k < s.len() ==> #[trigger] s[k] != c
}

proof fn lemma_join_free_of(parts: Seq<Seq<char>>, sep: Seq<char>, c: char)
    requires
        forall|i: int| 0 <= i < parts.len() ==> free_of(#[trigger] parts[i], c),
        free_of(sep, c),
    ensures
        free_of(join(parts, sep), c),
    decreases parts.len(),
{
    if parts.len() > 1 {
        let init = parts.drop_last();
        assert forall|i: int| 0 <= i < init.len() implies free_of(#[trigger] init[i], c) by {
            assert(init[i] == parts[i]);
        }
        lemma_join_free_of(init, sep, c);
        let j = join(init, sep);
        let l = parts.last();
        assert(free_of(l, c)) by {
            assert(l == parts[parts.len() - 1]);
        }
        assert forall|k: int| 0 <= k < (j + sep + l).len() implies #[trigger] (j + sep + l)[k] != c by {
            if k < j.len() {
                assert((j + sep + l)[k] == j[k]);
            } else if k < j.len() + sep.len() {
                assert((j + sep + l)[k] == sep[k - j.len()]);
            } else {
                assert((j + sep + l)[k] == l[k - j.len() - sep.len()]);
            }
        }
    } else if parts.len() == 1 {
        assert(free_of(parts[0], c));
    }
}

proof fn lemma_display_free_of_dot(h: SpecHrid, digits: nat)
    requires
        valid_hrid(h),
    ensures
        free_of(spec_display(h, digits), '.'),
        spec_display(h, digits).len() > 0,
{
    lemma_display_is_join(h, digits);
    lemma_zero_padded(h.id, digits);
    let parts = display_parts(h, digits);
    assert forall|i: int| 0 <= i < parts.len() implies free_of(#[trigger] parts[i], '.') by {
        let n = h.namespace.len();
        if i < n {
            assert(parts[i] == h.namespace[i]);
            assert(valid_segment(h.namespace[i]));
        } else if i == n {
            assert(parts[i] == h.kind);
        } else {
            assert(parts[i] == zero_padded(h.id, digits));
        }
    }
    reveal_strlit("-");
    lemma_join_free_of(parts, "-"@, '.');
    assert(spec_display(h, digits).len() > 0) by {
        let z = zero_padded(h.id, digits);
        assert(spec_display(h, digits) == crate::hrid::spec_prefix(h) + "-"@ + z);
    }
}

proof fn lemma_strip_md(x: Seq<char>)
    requires
        x.len() > 0,
        free_of(x, '.'),
    ensures
        strip_extension(x + ".md"@) == x,
{
    reveal_strlit(".md");
    reveal_strlit("..");
    let name = x + ".md"@;
    let n = x.len() as int;
    assert(name.len() == n + 3);
    assert(name != ".."@);
    assert(name[n] == '.');
    assert(is_last_dot(name, n));
    let d = choose|d: int| is_last_dot(name, d);
    assert(is_last_dot(name, d));
    if d < n {
        assert(name[d] == x[d]);
    }
    if d > n {
        assert(name[d] != '.');
    }
    assert(name.take(n) =~= x);
}

/// The path of a well-formed HRID's file names that HRID again, in either
/// layout and at any width.
pub proof fn lemma_path_roundtrip(h: SpecHrid, subfolders_are_namespaces: bool, digits: nat)
    requires
        valid_hrid(h),
    ensures
        path_hrid(path_components(h, subfolders_are_namespaces, digits), subfolders_are_namespaces)
            == Ok::<SpecHrid, Seq<char>>(h),
{
    let c = path_components(h, subfolders_are_namespaces, digits);
    if subfolders_are_namespaces {
        lemma_zero_padded(h.id, digits);
        let z = zero_padded(h.id, digits);
        assert(free_of(z, '.')) by {
            assert forall|k: int| 0 <= k < z.len() implies #[trigger] z[k] != '.' by {
                assert(crate::text::is_ascii_digit(z[k]));
            }
        }
        lemma_strip_md(z);
        let comps = without_extension(c);
        let nk = h.namespace.push(h.kind);
        assert(c.drop_last() =~= nk);
        assert(comps =~= nk.push(z));
        assert(comps.last() == z);
        assert(comps[comps.len() - 2] == h.kind);
        assert(comps.take(comps.len() - 2) =~= h.namespace);
    } else {
        lemma_display_free_of_dot(h, digits);
        lemma_strip_md(spec_display(h, digits));
        lemma_display_parse_roundtrip(h, digits);
        let comps = without_extension(c);
        assert(comps =~= seq![spec_display(h, digits)]);
    }
}


/// `root` is a leading run of the components of `path`.
pub open spec fn under_root(path: Seq<Seq<char>>, root: Seq<Seq<char>>) -> bool {
    root.len() <= path.len() && path.take(root.len() as int) == root
}

/// The HRID that a file names, given its path and the store's root as
/// components: the path must lie under the root, and the part below it
/// names the HRID (see [`hrid_from_path`]).
pub fn hrid_from_full_path(path: &[String], root: &[String], config: &Config) -> (r: Result<Hrid, String>)
    ensures
        ({
            let p = path@.map_values(|c: String| c@);
            let rt = root@.map_values(|c: String| c@);
            match r {
                Ok(h) => under_root(p, rt) && path_hrid(p.skip(rt.len() as int), config.view().subfolders_are_namespaces)
                    == Ok::<SpecHrid, Seq<char>>(h@),
                Err(e) => {
                    ||| !under_root(p, rt) && e@ == "Path "@ + join(p, "/"@) + " is not under root "@ + join(rt, "/"@)
                    ||| under_root(p, rt) && path_hrid(p.skip(rt.len() as int), config.view().subfolders_are_namespaces)
                        == Err::<SpecHrid, Seq<char>>(e@)
                },
            }
        }),
{
    let ghost p = path@.map_values(|c: String| c@);
    let ghost rt = root@.map_values(|c: String| c@);
    let mut under = root.len() <= path.len();
    let mut i: usize = 0;
    while under && i < root.len()
        invariant
            root@.len() <= path@.len() || !under,
            i <= root@.len(),
            under ==> i <= path@.len(),
            under ==> forall|j: int| 0 <= j < i ==> #[trigger] p[j] == rt[j],
            !under ==> !under_root(p, rt),
            p == path@.map_values(|c: String| c@),
            rt == root@.map_values(|c: String| c@),
        decreases root@.len() - i,
    {
        if !str_eq(path[i].as_str(), root[i].as_str()) {
            proof {
                assert(p[i as int] != rt[i as int]);
                if under_root(p, rt) {
                    assert(p.take(rt.len() as int)[i as int] == p[i as int]);
                }
            }
            under = false;
            i = root.len();
        } else {
            i = i + 1;
        }
    }
    if !under {
        let mut m = string_of("Path ");
        push_str(&mut m, crate::render::join_with(path, "/").as_str());
        push_str(&mut m, " is not under root ");
        push_str(&mut m, crate::render::join_with(root, "/").as_str());
        return Err(m);
    }
    proof {
        assert(p.take(rt.len() as int) =~= rt);
    }
    let mut rest: Vec<String> = Vec::new();
    let mut k: usize = root.len();
    while k < path.len()
        invariant
            root@.len() <= k <= path@.len(),
            rest@.len() == k - root@.len(),
            forall|j: int| 0 <= j < rest@.len() ==> #[trigger] rest@[j]@ == path@[j + root@.len()]@,
        decreases path@.len() - k,
    {
        rest.push(copy_string(&path[k]));
        k = k + 1;
    }
    proof {
        assert(rest@.map_values(|c: String| c@) =~= p.skip(rt.len() as int));
    }
    hrid_from_path(rest.as_slice(), config)
}

/// A path's components with `.` dropped and each `..` taking back the
/// component before it; the root `/` is never taken back, and a `..` with
/// nothing before it is dropped. Purely lexical: no link is followed.
pub open spec fn normalised_path(c: Seq<Seq<char>>) -> Seq<Seq<char>>
    decreases c.len(),
{
    if c.len() == 0 {
        Seq::empty()
    } else {
        let r = normalised_path(c.drop_last());
        let x = c.last();
        if x == "."@ {
            r
        } else if x == ".."@ {
            if r.len() > 0 && r.last() != "/"@ {
                r.drop_last()
            } else {
                r
            }
        } else {
            r.push(x)
        }
    }
}

/// Resolves `.` and `..` in a path given as components, so that paths
/// reached by different routes (`root/sub/../SUMMARY.md` and
/// `root/SUMMARY.md`) compare equal (see [`normalised_path`]).
pub fn lexical_normal(c: &[String]) -> (r: Vec<String>)
    ensures
        r@.map_values(|x: String| x@) == normalised_path(c@.map_values(|x: String| x@)),
{
    let ghost cs = c@.map_values(|x: String| x@);
    let mut r: Vec<String> = Vec::new();
    let mut i: usize = 0;
    proof {
        assert(cs.take(0) =~= Seq::<Seq<char>>::empty());
    }
    while i < c.len()
        invariant
            i <= c@.len(),
            cs == c@.map_values(|x: String| x@),
            r@.map_values(|x: String| x@) == normalised_path(cs.take(i as int)),
        decreases c@.len() - i,
    {
        proof {
            assert(cs.take(i + 1).drop_last() =~= cs.take(i as int));
            assert(cs.take(i + 1).last() == c@[i as int]@);
            reveal_strlit(".");
            reveal_strlit("..");
            reveal_strlit("/");
        }
        let ghost before = r@.map_values(|x: String| x@);
        if str_eq(c[i].as_str(), ".") {
        } else if str_eq(c[i].as_str(), "..") {
            let n = r.len();
            if n > 0 && !str_eq(r[n - 1].as_str(), "/") {
                r.pop();
                proof {
                    assert(r@.map_values(|x: String| x@) =~= before.drop_last());
                }
            }
        } else {
            r.push(copy_string(&c[i]));
            proof {
                assert(r@.map_values(|x: String| x@) =~= before.push(c@[i as int]@));
            }
        }
        i = i + 1;
    }
    proof {
        assert(cs.take(c@.len() as int) =~= cs);
    }
    r
}

} // verus!
