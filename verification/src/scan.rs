//! The executable scanner.
//!
//! These functions realize the model in [`crate::tree`] exactly: the
//! returned tree's shape equals `scan_model` of the input snapshot.

use vstd::prelude::*;
use std::path::Path;
use crate::order::{lex_le_exec, str_eq, to_lower};
use crate::tree::{
    collect_model, entry_contrib, entry_node, excluded_name, file_name_of, insert_model,
    key_le, lemma_collect_snoc, lemma_insert_model_at, lemma_nodes_of_insert,
    lemma_nodes_of_pointwise, lemma_sort_snoc, node_of, nodes_of, root_name, scan_model,
    sort_model, DirEntry, RawKind, RawListing,
};
use crate::MAX_DEPTH;

verus! {

/// Relies on `Path::file_name`, with `OsStr::to_string_lossy` decoding
/// its result: the final path segment of a path string, a fixed function
/// of the string on the target platform.
#[verifier::external_body]
fn path_file_name(p: &str) -> (r: Option<String>)
    ensures
        match r {
            Some(n) => file_name_of(p@) == Some(n@),
            None => file_name_of(p@) is None,
        },
{
    match Path::new(p).file_name() {
        Some(n) => Some(n.to_string_lossy().into_owned()),
        None => None,
    }
}

/// Decides whether a name is excluded from every scan: hidden (leading
/// dot) or a member of the fixed skip set.
pub fn name_excluded(name: &str) -> (r: bool)
    ensures
        r == excluded_name(name@),
{
    let n = name.unicode_len();
    if n > 0 {
        if name.get_char(0) == '.' {
            return true;
        }
    }
    str_eq(name, "node_modules") || str_eq(name, "target") || str_eq(name, "dist") || str_eq(
        name,
        ".git",
    ) || str_eq(name, ".svn") || str_eq(name, ".hg") || str_eq(name, "__pycache__") || str_eq(
        name,
        ".next",
    ) || str_eq(name, ".nuxt") || str_eq(name, "build")
}

/// Decides the sibling order between two result nodes: by lower-cased
/// name, lexicographically.
fn entry_le(a: &DirEntry, b: &DirEntry) -> (r: bool)
    ensures
        r == key_le(node_of(*a), node_of(*b)),
{
    let la = to_lower(a.name.as_str());
    let lb = to_lower(b.name.as_str());
    lex_le_exec(la.as_str(), lb.as_str())
}

/// Inserts a node into an already-built sequence, after every node whose
/// key is no greater than its own; inserting each sibling in listing
/// order this way is a stable sort.
fn insert_in_order(v: &mut Vec<DirEntry>, x: DirEntry)
    ensures
        nodes_of(final(v)@) == insert_model(node_of(x), nodes_of(old(v)@)),
{
    let ghost s0 = v@;
    let mut p: usize = 0;
    loop
        invariant
            p <= v@.len(),
            v@ == s0,
            forall|k: int| 0 <= k < p ==> key_le(node_of(#[trigger] s0[k]), node_of(x)),
        ensures
            p <= v@.len(),
            v@ == s0,
            forall|k: int| 0 <= k < p ==> key_le(node_of(#[trigger] s0[k]), node_of(x)),
            p == s0.len() || !key_le(node_of(s0[p as int]), node_of(x)),
        decreases v@.len() - p,
    {
        if p == v.len() {
            break;
        }
        if !entry_le(&v[p], &x) {
            break;
        }
        p = p + 1;
    }
    let ghost nx = node_of(x);
    v.insert(p, x);
    proof {
        lemma_nodes_of_pointwise(s0);
        assert forall|k: int| 0 <= k < p implies key_le(#[trigger] nodes_of(s0)[k], nx) by {
            assert(nodes_of(s0)[k] == node_of(s0[k]));
        }
        lemma_insert_model_at(nx, nodes_of(s0), p as int);
        lemma_nodes_of_insert(s0, x, p as int);
    }
}

/// Scans one directory snapshot with `budget` levels of expansion left:
/// keeps the readable directory's entries that are directories with
/// non-excluded names, scans each one level shallower, and orders the
/// siblings by case-insensitive name, ascending and stable.
pub fn scan_listing(l: &RawListing, budget: u32) -> (r: Vec<DirEntry>)
    ensures
        nodes_of(r@) == scan_model(*l, budget as nat),
    decreases budget,
{
    if budget == 0 || !l.readable {
        let r: Vec<DirEntry> = Vec::new();
        return r;
    }
    let ghost b = (budget - 1) as nat;
    let mut out: Vec<DirEntry> = Vec::new();
    let n = l.entries.len();
    let mut i: usize = 0;
    while i < n
        invariant
            i <= n,
            n == l.entries@.len(),
            1 <= budget,
            l.readable,
            b == (budget - 1) as nat,
            nodes_of(out@) == sort_model(collect_model(l.entries@.subrange(0, i as int), b)),
        decreases n - i,
    {
        let e = &l.entries[i];
        let ghost prefix = l.entries@.subrange(0, i as int);
        proof {
            assert(l.entries@.subrange(0, i + 1) =~= prefix.push(l.entries@[i as int]));
            lemma_collect_snoc(prefix, l.entries@[i as int], b);
        }
        let is_dir = match e.kind {
            RawKind::Dir => true,
            _ => false,
        };
        if is_dir {
            if !name_excluded(e.name.as_str()) {
                let children = scan_listing(&e.listing, budget - 1);
                let d = DirEntry { name: e.name.clone(), path: e.path.clone(), children };
                proof {
                    lemma_nodes_of_pointwise(children@);
                    assert(node_of(d) == entry_node(l.entries@[i as int], b));
                    lemma_sort_snoc(collect_model(prefix, b), node_of(d));
                    assert(collect_model(prefix, b).push(node_of(d)) =~= collect_model(
                        prefix,
                        b,
                    ) + entry_contrib(l.entries@[i as int], b));
                }
                insert_in_order(&mut out, d);
            } else {
                proof {
                    assert(collect_model(prefix, b) + entry_contrib(l.entries@[i as int], b)
                        =~= collect_model(prefix, b));
                }
            }
        } else {
            proof {
                assert(collect_model(prefix, b) + entry_contrib(l.entries@[i as int], b)
                    =~= collect_model(prefix, b));
            }
        }
        i = i + 1;
    }
    proof {
        assert(l.entries@.subrange(0, n as int) =~= l.entries@);
    }
    out
}

/// Scans a whole tree from its root: the root node always exists, its
/// `path` is the literal root string, its `name` is the root's final
/// path segment (or the literal root string when none can be derived),
/// and its children are the bounded, filtered, ordered scan of the
/// snapshot. An unreadable root — a missing path, a non-directory, a
/// permission failure — yields a root node with no children, never an
/// error.
pub fn scan_directory(root: String, listing: &RawListing) -> (r: DirEntry)
    ensures
        r.path@ == root@,
        r.name@ == root_name(root@),
        nodes_of(r.children@) == scan_model(*listing, MAX_DEPTH as nat),
        !listing.readable ==> r.children@.len() == 0,
{
    let name = match path_file_name(root.as_str()) {
        Some(n) => n,
        None => root.clone(),
    };
    let children = scan_listing(listing, MAX_DEPTH);
    proof {
        lemma_nodes_of_pointwise(children@);
    }
    DirEntry { name, path: root, children }
}

} // verus!
