//! The scanned tree, its raw input, and the mathematical model of a scan.
//!
//! A scan works on a snapshot of the relevant part of the filesystem: for
//! each directory, whether its immediate entries could be listed, and for
//! each listed entry its name, its full path, and what the platform
//! reported about its type. The scan itself — filtering, the depth bound,
//! and the ordering of siblings — is pure and fully specified here.

use vstd::prelude::*;
use crate::order::{lex_le, lower_of};

verus! {

/// One directory in the result tree.
#[derive(Debug, PartialEq, Eq)]
pub struct DirEntry {
    /// The final path segment, lossily decoded.
    pub name: String,
    /// The full path, lossily decoded.
    pub path: String,
    /// Subdirectories, ordered by case-insensitive name ascending; empty
    /// at the depth bound, for an unreadable directory, and for a
    /// childless one.
    pub children: Vec<DirEntry>,
}

/// What the platform reported about a listed entry's type.
#[derive(Clone, Copy, Debug, PartialEq, Eq)]
pub enum RawKind {
    /// The type could not be determined.
    Unknown,
    /// Anything that is not a directory.
    NonDir,
    /// A directory.
    Dir,
}

/// One entry of a directory listing, as the filesystem reported it,
/// before any filtering.
pub struct RawEntry {
    /// The entry's own name (its final path segment), lossily decoded.
    pub name: String,
    /// The entry's full path, lossily decoded.
    pub path: String,
    /// The entry's reported type.
    pub kind: RawKind,
    /// The entry's own listing, if it is a directory that was descended
    /// into; ignored otherwise.
    pub listing: RawListing,
}

/// The immediate contents of one directory, or the fact that they could
/// not be listed.
pub struct RawListing {
    /// Whether listing the directory succeeded. A missing path, a
    /// non-directory, and a permission failure all read as `false`.
    pub readable: bool,
    /// The entries, in the unspecified order the filesystem returned
    /// them; meaningless when `readable` is `false`.
    pub entries: Vec<RawEntry>,
}

/// The mathematical shape of one result node: the two strings as
/// character sequences, and the children in order.
pub ghost struct Node {
    pub name: Seq<char>,
    pub path: Seq<char>,
    pub children: Seq<Node>,
}

/// The shape of a sequence of result nodes.
pub open spec fn nodes_of(s: Seq<DirEntry>) -> Seq<Node>
    decreases s,
{
    if s.len() == 0 {
        Seq::empty()
    } else {
        seq![
            Node {
                name: s[0].name@,
                path: s[0].path@,
                children: nodes_of(s[0].children@),
            },
        ] + nodes_of(s.subrange(1, s.len() as int))
    }
}

/// The shape of one result node.
pub open spec fn node_of(e: DirEntry) -> Node {
    Node { name: e.name@, path: e.path@, children: nodes_of(e.children@) }
}

/// `nodes_of` maps `node_of` over the sequence.
pub proof fn lemma_nodes_of_pointwise(s: Seq<DirEntry>)
    ensures
        nodes_of(s).len() == s.len(),
        forall|i: int| 0 <= i < s.len() ==> nodes_of(s)[i] == node_of(#[trigger] s[i]),
    decreases s,
{
    if s.len() != 0 {
        let tail = s.subrange(1, s.len() as int);
        lemma_nodes_of_pointwise(tail);
        assert forall|i: int| 0 <= i < s.len() implies nodes_of(s)[i] == node_of(
            #[trigger] s[i],
        ) by {
            if i > 0 {
                assert(tail[i - 1] == s[i]);
                assert(nodes_of(s)[i] == nodes_of(tail)[i - 1]);
            }
        }
    }
}

/// `nodes_of` commutes with insertion.
pub proof fn lemma_nodes_of_insert(s: Seq<DirEntry>, x: DirEntry, p: int)
    requires
        0 <= p <= s.len(),
    ensures
        nodes_of(s.insert(p, x)) == nodes_of(s).insert(p, node_of(x)),
{
    let ins = s.insert(p, x);
    lemma_nodes_of_pointwise(s);
    lemma_nodes_of_pointwise(ins);
    s.insert_ensures(p, x);
    nodes_of(s).insert_ensures(p, node_of(x));
    assert forall|i: int| 0 <= i < nodes_of(ins).len() implies nodes_of(ins)[i] == nodes_of(
        s,
    ).insert(p, node_of(x))[i] by {
        assert(nodes_of(ins)[i] == node_of(ins[i]));
        if i < p {
            assert(ins[i] == s[i]);
        } else if i == p {
            assert(ins[i] == x);
        } else {
            assert(ins[i] == s[i - 1]);
        }
    }
    assert(nodes_of(ins) =~= nodes_of(s).insert(p, node_of(x)));
}

/// The fixed set of directory names never included in a scan.
pub open spec fn in_skip_set(n: Seq<char>) -> bool {
    ||| n == "node_modules"@
    ||| n == "target"@
    ||| n == "dist"@
    ||| n == ".git"@
    ||| n == ".svn"@
    ||| n == ".hg"@
    ||| n == "__pycache__"@
    ||| n == ".next"@
    ||| n == ".nuxt"@
    ||| n == "build"@
}

/// A name a scan never includes: hidden (leading dot), or a member of
/// the fixed skip set.
pub open spec fn excluded_name(n: Seq<char>) -> bool {
    (n.len() > 0 && n[0] == '.') || in_skip_set(n)
}

/// Whether a raw entry survives filtering: it is a directory and its
/// name is not excluded.
pub open spec fn keep_entry(e: RawEntry) -> bool {
    e.kind is Dir && !excluded_name(e.name@)
}

/// The ordering of siblings: by lower-cased name, lexicographically.
pub open spec fn key_le(a: Node, b: Node) -> bool {
    lex_le(lower_of(a.name), lower_of(b.name))
}

/// Insertion into a sorted sequence, after every node whose key is no
/// greater; used stably, a later arrival goes after an equal key.
pub open spec fn insert_model(x: Node, s: Seq<Node>) -> Seq<Node>
    decreases s.len(),
{
    if s.len() == 0 {
        seq![x]
    } else if key_le(s[0], x) {
        seq![s[0]] + insert_model(x, s.subrange(1, s.len() as int))
    } else {
        seq![x] + s
    }
}

/// Stable sort by `key_le`: elements are inserted in their original
/// order, each after all equal keys already present.
pub open spec fn sort_model(s: Seq<Node>) -> Seq<Node>
    decreases s.len(),
{
    if s.len() == 0 {
        Seq::empty()
    } else {
        insert_model(s[s.len() - 1], sort_model(s.subrange(0, s.len() - 1)))
    }
}

/// What a scan of one directory returns, with `b` levels of expansion
/// left: nothing at the bound or for an unreadable directory, otherwise
/// the kept entries, each scanned one level shallower, sorted.
pub open spec fn scan_model(l: RawListing, b: nat) -> Seq<Node>
    decreases b, 0int, 0int,
{
    if b == 0 || !l.readable {
        Seq::empty()
    } else {
        sort_model(collect_model(l.entries@, (b - 1) as nat))
    }
}

/// The node a kept raw entry turns into, with `b` levels of expansion
/// left for its children.
pub open spec fn entry_node(e: RawEntry, b: nat) -> Node
    decreases b, 1int, 0int,
{
    Node { name: e.name@, path: e.path@, children: scan_model(e.listing, b) }
}

/// What one raw entry contributes to its directory's scan: one node if
/// it is kept, nothing otherwise.
pub open spec fn entry_contrib(e: RawEntry, b: nat) -> Seq<Node>
    decreases b, 1int, 1int,
{
    if keep_entry(e) {
        seq![entry_node(e, b)]
    } else {
        Seq::empty()
    }
}

/// The kept entries of a listing, in listing order, each with its own
/// scan as children.
pub open spec fn collect_model(s: Seq<RawEntry>, b: nat) -> Seq<Node>
    decreases b, 2int, s.len(),
{
    if s.len() == 0 {
        Seq::empty()
    } else {
        entry_contrib(s[0], b) + collect_model(s.subrange(1, s.len() as int), b)
    }
}

/// Collecting one more listed entry appends its contribution.
pub proof fn lemma_collect_snoc(s: Seq<RawEntry>, e: RawEntry, b: nat)
    ensures
        collect_model(s.push(e), b) == collect_model(s, b) + entry_contrib(e, b),
    decreases s.len(),
{
    if s.len() == 0 {
        assert(s.push(e).subrange(1, 1) =~= Seq::<RawEntry>::empty());
        assert(s.push(e)[0] == e);
        assert(collect_model(s.push(e), b) == entry_contrib(e, b) + collect_model(
            s.push(e).subrange(1, 1),
            b,
        ));
        assert(collect_model(s, b) == Seq::<Node>::empty());
        assert(collect_model(s.push(e), b) =~= collect_model(s, b) + entry_contrib(e, b));
    } else {
        let tail = s.subrange(1, s.len() as int);
        assert(s.push(e).subrange(1, s.len() as int + 1) =~= tail.push(e));
        lemma_collect_snoc(tail, e, b);
        assert(s.push(e)[0] == s[0]);
        assert(collect_model(s.push(e), b) == entry_contrib(s[0], b) + collect_model(
            tail.push(e),
            b,
        ));
        assert(entry_contrib(s[0], b) + (collect_model(tail, b) + entry_contrib(e, b)) =~= (
        entry_contrib(s[0], b) + collect_model(tail, b)) + entry_contrib(e, b));
    }
}

/// Sorting one more node inserts it into the sorted rest.
pub proof fn lemma_sort_snoc(s: Seq<Node>, x: Node)
    ensures
        sort_model(s.push(x)) == insert_model(x, sort_model(s)),
{
    assert(s.push(x).subrange(0, s.len() as int) =~= s);
}

/// Where `insert_model` places a node: at the first position whose key
/// exceeds the new node's key.
pub proof fn lemma_insert_model_at(x: Node, s: Seq<Node>, p: int)
    requires
        0 <= p <= s.len(),
        forall|k: int| 0 <= k < p ==> key_le(#[trigger] s[k], x),
        p == s.len() || !key_le(s[p], x),
    ensures
        insert_model(x, s) == s.insert(p, x),
    decreases p,
{
    s.insert_ensures(p, x);
    if p == 0 {
        assert(insert_model(x, s) =~= s.insert(0, x));
    } else {
        let tail = s.subrange(1, s.len() as int);
        assert(key_le(s[0], x));
        assert forall|k: int| 0 <= k < p - 1 implies key_le(#[trigger] tail[k], x) by {
            assert(tail[k] == s[k + 1]);
        }
        if p - 1 < tail.len() {
            assert(tail[p - 1] == s[p]);
        }
        lemma_insert_model_at(x, tail, p - 1);
        tail.insert_ensures(p - 1, x);
        assert(insert_model(x, s) =~= s.insert(p, x));
    }
}

/// What `Path::file_name` returns for a given path string: the final
/// path segment, if one can be derived.
pub uninterp spec fn file_name_of(p: Seq<char>) -> Option<Seq<char>>;

/// The root node's name: the final path segment of the root path, or
/// the literal root string when no segment can be derived.
pub open spec fn root_name(p: Seq<char>) -> Seq<char> {
    match file_name_of(p) {
        Some(n) => n,
        None => p,
    }
}

} // verus!
