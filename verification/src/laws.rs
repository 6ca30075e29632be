//! Properties of a scan, proved of the model in [`crate::tree`].
//!
//! The executable scanner returns exactly the model's tree, so each of
//! these holds of every returned tree as well.

use vstd::prelude::*;
use crate::order::{lemma_lex_le_total, lemma_lex_le_trans};
use crate::tree::{
    collect_model, entry_contrib, entry_node, excluded_name, insert_model, keep_entry,
    key_le, scan_model, sort_model, Node, RawEntry, RawListing,
};

verus! {

/// Depth is bounded: with `b` levels of expansion left, a sequence of
/// nodes is empty once `b` is exhausted, and every child level has one
/// level less.
pub open spec fn depth_bounded(s: Seq<Node>, b: nat) -> bool
    decreases s,
{
    &&& (b == 0 ==> s.len() == 0)
    &&& (forall|i: int|
        0 <= i < s.len() ==> depth_bounded(#[trigger] s[i].children, (b - 1) as nat))
}

/// No node anywhere in the tree bears an excluded name.
pub open spec fn tree_no_excluded(s: Seq<Node>) -> bool
    decreases s,
{
    forall|i: int| 0 <= i < s.len() ==> node_no_excluded(#[trigger] s[i])
}

/// Neither this node's name nor any name below it is excluded.
pub open spec fn node_no_excluded(n: Node) -> bool
    decreases n,
{
    !excluded_name(n.name) && tree_no_excluded(n.children)
}

/// One level of siblings is ordered by case-insensitive name ascending.
pub open spec fn siblings_sorted(s: Seq<Node>) -> bool {
    forall|i: int, j: int| 0 <= i < j < s.len() ==> key_le(#[trigger] s[i], #[trigger] s[j])
}

/// Every level of the tree is ordered by case-insensitive name.
pub open spec fn tree_sorted(s: Seq<Node>) -> bool
    decreases s,
{
    &&& siblings_sorted(s)
    &&& (forall|i: int| 0 <= i < s.len() ==> tree_sorted(#[trigger] s[i].children))
}

/// A node of `insert_model`'s result is the inserted node or one of the
/// sequence's own.
proof fn lemma_insert_model_contains(x: Node, s: Seq<Node>, y: Node)
    requires
        insert_model(x, s).contains(y),
    ensures
        y == x || s.contains(y),
    decreases s.len(),
{
    if s.len() == 0 {
        assert(insert_model(x, s)[0] == x);
    } else if key_le(s[0], x) {
        let tail = s.subrange(1, s.len() as int);
        let r = seq![s[0]] + insert_model(x, tail);
        let i = choose|i: int| 0 <= i < r.len() && r[i] == y;
        if i == 0 {
            assert(s.contains(y)) by { assert(s[0] == y) };
        } else {
            assert(insert_model(x, tail).contains(y)) by {
                assert(insert_model(x, tail)[i - 1] == y);
            }
            lemma_insert_model_contains(x, tail, y);
            if tail.contains(y) {
                let k = choose|k: int| 0 <= k < tail.len() && tail[k] == y;
                assert(s.contains(y)) by { assert(s[k + 1] == y) };
            }
        }
    } else {
        let r = seq![x] + s;
        let i = choose|i: int| 0 <= i < r.len() && r[i] == y;
        if i > 0 {
            assert(s.contains(y)) by { assert(s[i - 1] == y) };
        }
    }
}

/// A node of `sort_model`'s result is one of the sequence's own.
proof fn lemma_sort_model_contains(s: Seq<Node>, y: Node)
    requires
        sort_model(s).contains(y),
    ensures
        s.contains(y),
    decreases s.len(),
{
    if s.len() != 0 {
        let front = s.subrange(0, s.len() - 1);
        lemma_insert_model_contains(s[s.len() - 1], sort_model(front), y);
        if y == s[s.len() - 1] {
            assert(s.contains(y)) by { assert(s[s.len() - 1] == y) };
        } else {
            lemma_sort_model_contains(front, y);
            let k = choose|k: int| 0 <= k < front.len() && front[k] == y;
            assert(s.contains(y)) by { assert(s[k] == y) };
        }
    }
}

/// A node of `collect_model`'s result comes from a kept entry of the
/// listing.
proof fn lemma_collect_elements(s: Seq<RawEntry>, b: nat, y: Node)
    requires
        collect_model(s, b).contains(y),
    ensures
        exists|i: int|
            0 <= i < s.len() && keep_entry(#[trigger] s[i]) && y == entry_node(s[i], b),
    decreases s.len(),
{
    let tail = s.subrange(1, s.len() as int);
    let r = collect_model(s, b);
    let i = choose|i: int| 0 <= i < r.len() && r[i] == y;
    if keep_entry(s[0]) && i == 0 {
        assert(r == entry_contrib(s[0], b) + collect_model(tail, b));
        assert(entry_contrib(s[0], b) == seq![entry_node(s[0], b)]);
        assert(r[0] == entry_node(s[0], b));
        assert(0 < s.len() && keep_entry(s[0]) && y == entry_node(s[0], b));
    } else {
        let shift: int = entry_contrib(s[0], b).len() as int;
        assert(collect_model(tail, b).contains(y)) by {
            assert(collect_model(tail, b)[i - shift] == y);
        }
        lemma_collect_elements(tail, b, y);
        let k = choose|k: int|
            0 <= k < tail.len() && keep_entry(#[trigger] tail[k]) && y == entry_node(tail[k], b);
        assert(tail[k] == s[k + 1]);
        assert(0 <= k + 1 < s.len() && keep_entry(s[k + 1]) && y == entry_node(s[k + 1], b));
    }
}

/// Every node of a scan is a kept entry's node.
proof fn lemma_scan_elements(l: RawListing, b: nat, y: Node)
    requires
        scan_model(l, b).contains(y),
    ensures
        b > 0 && exists|i: int|
            0 <= i < l.entries@.len() && keep_entry(#[trigger] l.entries@[i]) && y == entry_node(
                l.entries@[i],
                (b - 1) as nat,
            ),
{
    if b == 0 || !l.readable {
        assert(false);
    } else {
        lemma_sort_model_contains(collect_model(l.entries@, (b - 1) as nat), y);
        lemma_collect_elements(l.entries@, (b - 1) as nat, y);
    }
}

/// The depth of a scanned tree never exceeds the expansion budget it was
/// scanned with: below the fixed bound, every node's children are empty.
pub proof fn lemma_scan_depth_bounded(l: RawListing, b: nat)
    ensures
        depth_bounded(scan_model(l, b), b),
    decreases b,
{
    let out = scan_model(l, b);
    assert forall|i: int| 0 <= i < out.len() implies depth_bounded(
        #[trigger] out[i].children,
        (b - 1) as nat,
    ) by {
        assert(out.contains(out[i]));
        lemma_scan_elements(l, b, out[i]);
        let j = choose|j: int|
            0 <= j < l.entries@.len() && keep_entry(#[trigger] l.entries@[j]) && out[i]
                == entry_node(l.entries@[j], (b - 1) as nat);
        lemma_scan_depth_bounded(l.entries@[j].listing, (b - 1) as nat);
    }
}

/// No excluded name — hidden, or a member of the fixed skip set — ever
/// appears anywhere in a scanned tree.
pub proof fn lemma_scan_no_excluded(l: RawListing, b: nat)
    ensures
        tree_no_excluded(scan_model(l, b)),
    decreases b,
{
    let out = scan_model(l, b);
    assert forall|i: int| 0 <= i < out.len() implies node_no_excluded(#[trigger] out[i]) by {
        assert(out.contains(out[i]));
        lemma_scan_elements(l, b, out[i]);
        let j = choose|j: int|
            0 <= j < l.entries@.len() && keep_entry(#[trigger] l.entries@[j]) && out[i]
                == entry_node(l.entries@[j], (b - 1) as nat);
        lemma_scan_no_excluded(l.entries@[j].listing, (b - 1) as nat);
        assert(out[i].children == scan_model(l.entries@[j].listing, (b - 1) as nat));
    }
}

/// Whatever was present stays present through `insert_model`, and so
/// does the inserted node.
proof fn lemma_insert_model_keeps(x: Node, s: Seq<Node>, y: Node)
    requires
        y == x || s.contains(y),
    ensures
        insert_model(x, s).contains(y),
    decreases s.len(),
{
    if s.len() == 0 {
        assert(insert_model(x, s)[0] == y);
    } else if key_le(s[0], x) {
        let tail = s.subrange(1, s.len() as int);
        let r = seq![s[0]] + insert_model(x, tail);
        if s.contains(y) {
            let i = choose|i: int| 0 <= i < s.len() && s[i] == y;
            if i == 0 {
                assert(r[0] == y);
            } else {
                assert(tail[i - 1] == y);
                lemma_insert_model_keeps(x, tail, y);
                let k = choose|k: int|
                    0 <= k < insert_model(x, tail).len() && insert_model(x, tail)[k] == y;
                assert(r[k + 1] == y);
            }
        } else {
            lemma_insert_model_keeps(x, tail, y);
            let k = choose|k: int|
                0 <= k < insert_model(x, tail).len() && insert_model(x, tail)[k] == y;
            assert(r[k + 1] == y);
        }
    } else {
        let r = seq![x] + s;
        if y == x {
            assert(r[0] == y);
        } else {
            let i = choose|i: int| 0 <= i < s.len() && s[i] == y;
            assert(r[i + 1] == y);
        }
    }
}

/// Sorting loses no node.
proof fn lemma_sort_model_keeps(s: Seq<Node>, y: Node)
    requires
        s.contains(y),
    ensures
        sort_model(s).contains(y),
    decreases s.len(),
{
    let front = s.subrange(0, s.len() - 1);
    let i = choose|i: int| 0 <= i < s.len() && s[i] == y;
    if i == s.len() - 1 {
        lemma_insert_model_keeps(s[s.len() - 1], sort_model(front), y);
    } else {
        assert(front[i] == y);
        lemma_sort_model_keeps(front, y);
        lemma_insert_model_keeps(s[s.len() - 1], sort_model(front), y);
    }
}

/// Collecting loses no kept entry.
proof fn lemma_collect_keeps(s: Seq<RawEntry>, b: nat, i: int)
    requires
        0 <= i < s.len(),
        keep_entry(s[i]),
    ensures
        collect_model(s, b).contains(entry_node(s[i], b)),
    decreases s.len(),
{
    let tail = s.subrange(1, s.len() as int);
    let r = collect_model(s, b);
    if i == 0 {
        assert(entry_contrib(s[0], b) == seq![entry_node(s[0], b)]);
        assert(r[0] == entry_node(s[i], b));
    } else {
        assert(tail[i - 1] == s[i]);
        lemma_collect_keeps(tail, b, i - 1);
        let k = choose|k: int|
            0 <= k < collect_model(tail, b).len() && collect_model(tail, b)[k] == entry_node(
                s[i],
                b,
            );
        let shift: int = entry_contrib(s[0], b).len() as int;
        assert(r[k + shift] == entry_node(s[i], b));
    }
}

/// Completeness: every directory entry of a readable listing that
/// survives filtering appears in the scan, as its own node with its own
/// scan as children.
pub proof fn lemma_scan_includes_kept(l: RawListing, b: nat, i: int)
    requires
        b > 0,
        l.readable,
        0 <= i < l.entries@.len(),
        keep_entry(l.entries@[i]),
    ensures
        scan_model(l, b).contains(entry_node(l.entries@[i], (b - 1) as nat)),
{
    lemma_collect_keeps(l.entries@, (b - 1) as nat, i);
    lemma_sort_model_keeps(
        collect_model(l.entries@, (b - 1) as nat),
        entry_node(l.entries@[i], (b - 1) as nat),
    );
}

/// Inserting into a sorted sequence keeps it sorted.
proof fn lemma_insert_model_sorted(x: Node, s: Seq<Node>)
    requires
        siblings_sorted(s),
    ensures
        siblings_sorted(insert_model(x, s)),
    decreases s.len(),
{
    if s.len() == 0 {
    } else if key_le(s[0], x) {
        let tail = s.subrange(1, s.len() as int);
        assert forall|i: int, j: int| 0 <= i < j < tail.len() implies key_le(
            #[trigger] tail[i],
            #[trigger] tail[j],
        ) by {
            assert(tail[i] == s[i + 1] && tail[j] == s[j + 1]);
        }
        lemma_insert_model_sorted(x, tail);
        let it = insert_model(x, tail);
        let r = seq![s[0]] + it;
        assert forall|i: int, j: int| 0 <= i < j < r.len() implies key_le(
            #[trigger] r[i],
            #[trigger] r[j],
        ) by {
            if i == 0 {
                assert(it.contains(r[j])) by { assert(it[j - 1] == r[j]) };
                lemma_insert_model_contains(x, tail, r[j]);
                if r[j] == x {
                } else {
                    let k = choose|k: int| 0 <= k < tail.len() && tail[k] == r[j];
                    assert(key_le(s[0], s[k + 1]));
                }
            } else {
                assert(r[i] == it[i - 1] && r[j] == it[j - 1]);
            }
        }
    } else {
        let r = seq![x] + s;
        lemma_lex_le_total(crate::order::lower_of(s[0].name), crate::order::lower_of(x.name));
        assert forall|i: int, j: int| 0 <= i < j < r.len() implies key_le(
            #[trigger] r[i],
            #[trigger] r[j],
        ) by {
            if i == 0 {
                assert(r[j] == s[j - 1]);
                if j > 1 {
                    assert(key_le(s[0], s[j - 1]));
                    lemma_lex_le_trans(
                        crate::order::lower_of(x.name),
                        crate::order::lower_of(s[0].name),
                        crate::order::lower_of(s[j - 1].name),
                    );
                }
            } else {
                assert(r[i] == s[i - 1] && r[j] == s[j - 1]);
            }
        }
    }
}

/// `sort_model` sorts.
proof fn lemma_sort_model_sorted(s: Seq<Node>)
    ensures
        siblings_sorted(sort_model(s)),
    decreases s.len(),
{
    if s.len() != 0 {
        let front = s.subrange(0, s.len() - 1);
        lemma_sort_model_sorted(front);
        lemma_insert_model_sorted(s[s.len() - 1], sort_model(front));
    }
}

/// Every level of a scanned tree is ordered by case-insensitive name
/// ascending.
pub proof fn lemma_scan_sorted(l: RawListing, b: nat)
    ensures
        tree_sorted(scan_model(l, b)),
    decreases b,
{
    let out = scan_model(l, b);
    if b != 0 && l.readable {
        lemma_sort_model_sorted(collect_model(l.entries@, (b - 1) as nat));
    }
    assert forall|i: int| 0 <= i < out.len() implies tree_sorted(#[trigger] out[i].children) by {
        assert(out.contains(out[i]));
        lemma_scan_elements(l, b, out[i]);
        let j = choose|j: int|
            0 <= j < l.entries@.len() && keep_entry(#[trigger] l.entries@[j]) && out[i]
                == entry_node(l.entries@[j], (b - 1) as nat);
        lemma_scan_sorted(l.entries@[j].listing, (b - 1) as nat);
    }
}

/// A directory with no subdirectory entries scans to no children, at any
/// budget: regular files and undetermined entries never produce nodes.
pub proof fn lemma_scan_no_directories(l: RawListing, b: nat)
    requires
        forall|i: int| 0 <= i < l.entries@.len() ==> !((#[trigger] l.entries@[i].kind) is Dir),
    ensures
        scan_model(l, b).len() == 0,
{
    let out = scan_model(l, b);
    if out.len() != 0 {
        assert(out.contains(out[0]));
        lemma_scan_elements(l, b, out[0]);
        assert(false);
    }
}

/// An unreadable directory — missing, not a directory, or permission
/// denied — scans to no children at any budget, never to an error.
pub proof fn lemma_scan_unreadable(l: RawListing, b: nat)
    requires
        !l.readable,
    ensures
        scan_model(l, b).len() == 0,
{
}

/// Scanning is deterministic: the same snapshot scanned twice with the
/// same budget yields structurally identical trees — same names, same
/// ordering, same shape.
pub proof fn lemma_scan_deterministic(l1: RawListing, b1: nat, l2: RawListing, b2: nat)
    requires
        l1 == l2,
        b1 == b2,
    ensures
        scan_model(l1, b1) == scan_model(l2, b2),
{
}

} // verus!
