//! The overlay upper layer as an explicit tree.
//!
//! Content nodes and whiteout nodes live in one tree, so the load-bearing
//! invariants are structural rather than maintained by call-site
//! discipline:
//!
//! 1. The root is always a directory (the tree is the root's child list).
//! 2. Children of a directory are kept sorted by name, each name once.
//! 3. Whiteouts are leaves and never nest (`put_whiteout` collapses a
//!    subtree into one node), so every whiteout is a top-most deletion.
//! 4. A node is either content or a whiteout.
//! 5. Directory resurrection happens only through `ensure_dirs`, which
//!    re-hides deleted lower children by inserting whiteout children.
//!
//! The tree knows nothing about the lower layer; callers inject lower-layer
//! probes (`lower_readdir`, `lower_mode`) where they are needed.
use std::time::SystemTime;

use vstd::prelude::*;
use vstd::utf8::encode_utf8;

use crate::error::VfsError;
use crate::text::{char_seqs, chars_lt, chars_of, compare_chars, lemma_chars_lt_asymmetric,
    lemma_chars_lt_irreflexive, lemma_chars_lt_total, lemma_chars_lt_transitive, string_of};
use crate::vfs::paths::{absolute_of, joined, lemma_join_absolute, lemma_segments_shape, segments_of, slash_free, split_segments};
use crate::vfs::types::{system_time_now, DirEntry, Metadata, NodeType};

verus! {

/// One node in the overlay upper layer.
#[derive(Debug)]
pub enum UpperNode {
    File { content: Vec<u8>, mode: u32, mtime: SystemTime },
    /// Children sorted by name, each name once.
    Dir { children: Vec<(String, UpperNode)>, mode: u32, mtime: SystemTime },
    Symlink { target: String, mtime: SystemTime },
    /// "This path and everything under it was deleted." Leaf, never nested.
    Whiteout,
}

// ── Abstract model ─────────────────────────────────────────────────

/// The mathematical value of an [`UpperNode`].
pub enum NodeView {
    File { content: Seq<u8>, mode: u32, mtime: SystemTime },
    Dir { children: Seq<(Seq<char>, NodeView)>, mode: u32, mtime: SystemTime },
    Symlink { target: Seq<char>, mtime: SystemTime },
    Whiteout,
}

pub open spec fn node_view(n: UpperNode) -> NodeView
    decreases n, 0nat,
{
    match n {
        UpperNode::File { content, mode, mtime } => NodeView::File { content: content@, mode, mtime },
        UpperNode::Dir { children, mode, mtime } => NodeView::Dir {
            children: entries_view(children@, children@.len()),
            mode,
            mtime,
        },
        UpperNode::Symlink { target, mtime } => NodeView::Symlink { target: target@, mtime },
        UpperNode::Whiteout => NodeView::Whiteout,
    }
}

/// The first `k` entries of a child list, as values.
pub open spec fn entries_view(cs: Seq<(String, UpperNode)>, k: nat) -> Seq<(Seq<char>, NodeView)>
    decreases cs, k,
{
    if k == 0 || k > cs.len() {
        seq![]
    } else {
        entries_view(cs, (k - 1) as nat).push((cs[k - 1].0@, node_view(cs[k - 1].1)))
    }
}

/// The value of a whole child list.
pub open spec fn children_view(cs: Seq<(String, UpperNode)>) -> Seq<(Seq<char>, NodeView)> {
    entries_view(cs, cs.len())
}

/// The value of a child list is taken entry by entry.
pub proof fn lemma_children_view(cs: Seq<(String, UpperNode)>)
    ensures
        children_view(cs).len() == cs.len(),
        forall|i: int| 0 <= i < cs.len() ==> #[trigger] children_view(cs)[i] == (cs[i].0@, node_view(cs[i].1)),
{
    lemma_entries_view(cs, cs.len());
}

proof fn lemma_entries_view(cs: Seq<(String, UpperNode)>, k: nat)
    requires
        k <= cs.len(),
    ensures
        entries_view(cs, k).len() == k,
        forall|i: int| 0 <= i < k ==> #[trigger] entries_view(cs, k)[i] == (cs[i].0@, node_view(cs[i].1)),
    decreases k,
{
    if k > 0 {
        lemma_entries_view(cs, (k - 1) as nat);
    }
}

/// Node kinds, as `readdir` reports them (a whiteout reports as a file;
/// callers never expose whiteouts).
pub open spec fn view_node_type(n: NodeView) -> NodeType {
    match n {
        NodeView::Dir { .. } => NodeType::Directory,
        NodeView::Symlink { .. } => NodeType::Symlink,
        _ => NodeType::File,
    }
}

pub open spec fn has_name(cs: Seq<(Seq<char>, NodeView)>, name: Seq<char>) -> bool {
    exists|i: int| 0 <= i < cs.len() && cs[i].0 == name
}

pub open spec fn index_of_name(cs: Seq<(Seq<char>, NodeView)>, name: Seq<char>) -> int {
    choose|i: int| 0 <= i < cs.len() && cs[i].0 == name
}

/// The child called `name`, if any.
pub open spec fn lookup(cs: Seq<(Seq<char>, NodeView)>, name: Seq<char>) -> Option<NodeView> {
    if has_name(cs, name) {
        Some(cs[index_of_name(cs, name)].1)
    } else {
        None
    }
}

/// Names strictly increase along the list.
pub open spec fn sorted_names(cs: Seq<(Seq<char>, NodeView)>) -> bool {
    forall|i: int, j: int| 0 <= i < j < cs.len() ==> chars_lt(#[trigger] cs[i].0, #[trigger] cs[j].0)
}

pub open spec fn wf_node(n: NodeView) -> bool
    decreases n, 1nat,
{
    match n {
        NodeView::Dir { children, .. } => wf_children(children),
        _ => true,
    }
}

/// Every directory level is sorted by name.
pub open spec fn wf_children(cs: Seq<(Seq<char>, NodeView)>) -> bool
    decreases cs, 0nat,
{
    &&& sorted_names(cs)
    &&& forall|i: int| 0 <= i < cs.len() ==> wf_node(#[trigger] cs[i].1)
}

/// Sorted insertion: `name` gets `node`, replacing an entry of that name.
pub open spec fn set_child(cs: Seq<(Seq<char>, NodeView)>, name: Seq<char>, node: NodeView) -> Seq<(Seq<char>, NodeView)>
    decreases cs.len(),
{
    if cs.len() == 0 {
        seq![(name, node)]
    } else if cs[0].0 == name {
        cs.update(0, (name, node))
    } else if chars_lt(name, cs[0].0) {
        seq![(name, node)] + cs
    } else {
        seq![cs[0]] + set_child(cs.drop_first(), name, node)
    }
}

/// The list without the entry called `name`.
pub open spec fn remove_child(cs: Seq<(Seq<char>, NodeView)>, name: Seq<char>) -> Seq<(Seq<char>, NodeView)> {
    if has_name(cs, name) {
        cs.remove(index_of_name(cs, name))
    } else {
        cs
    }
}

/// What sits at a segment path.
pub enum DescendView {
    Found(NodeView),
    Missing,
    Blocked,
    NotDir,
}

/// Descent from a directory's children along `segs`: the node there, no
/// node (`Missing`), a whiteout at or above a proper ancestor (`Blocked`),
/// or a file or symlink in place of an ancestor directory (`NotDir`). The
/// empty path is the root itself, which is not a node: `Missing`.
pub open spec fn descend_in(cs: Seq<(Seq<char>, NodeView)>, segs: Seq<Seq<char>>) -> DescendView
    decreases segs.len(),
{
    if segs.len() == 0 {
        DescendView::Missing
    } else {
        match lookup(cs, segs[0]) {
            None => DescendView::Missing,
            Some(n) => if segs.len() == 1 {
                DescendView::Found(n)
            } else {
                match n {
                    NodeView::Whiteout => DescendView::Blocked,
                    NodeView::Dir { children, .. } => descend_in(children, segs.drop_first()),
                    _ => DescendView::NotDir,
                }
            },
        }
    }
}

/// Where a walk along a directory prefix ends.
pub enum ParentView {
    Dir(Seq<(Seq<char>, NodeView)>),
    NotFound,
    NotDir,
}

/// The child list reached by following `prefix` through directories; an
/// absent or whiteout component is `NotFound`, a file or symlink `NotDir`.
pub open spec fn walk_to(cs: Seq<(Seq<char>, NodeView)>, prefix: Seq<Seq<char>>) -> ParentView
    decreases prefix.len(),
{
    if prefix.len() == 0 {
        ParentView::Dir(cs)
    } else {
        match lookup(cs, prefix[0]) {
            Some(NodeView::Dir { children, .. }) => walk_to(children, prefix.drop_first()),
            Some(NodeView::File { .. }) => ParentView::NotDir,
            Some(NodeView::Symlink { .. }) => ParentView::NotDir,
            _ => ParentView::NotFound,
        }
    }
}

/// The tree with the node at `segs` replaced by `node`; every proper
/// ancestor must be a directory (otherwise nothing changes).
pub open spec fn replace_at(cs: Seq<(Seq<char>, NodeView)>, segs: Seq<Seq<char>>, node: NodeView) -> Seq<(Seq<char>, NodeView)>
    decreases segs.len(),
{
    if segs.len() == 0 {
        cs
    } else if segs.len() == 1 {
        set_child(cs, segs[0], node)
    } else {
        match lookup(cs, segs[0]) {
            Some(NodeView::Dir { children, mode, mtime }) => set_child(
                cs,
                segs[0],
                NodeView::Dir { children: replace_at(children, segs.drop_first(), node), mode, mtime },
            ),
            _ => cs,
        }
    }
}

/// The tree without the node at `segs` (nothing changes when a proper
/// ancestor is not a directory).
pub open spec fn remove_at(cs: Seq<(Seq<char>, NodeView)>, segs: Seq<Seq<char>>) -> Seq<(Seq<char>, NodeView)>
    decreases segs.len(),
{
    if segs.len() == 0 {
        cs
    } else if segs.len() == 1 {
        remove_child(cs, segs[0])
    } else {
        match lookup(cs, segs[0]) {
            Some(NodeView::Dir { children, mode, mtime }) => set_child(
                cs,
                segs[0],
                NodeView::Dir { children: remove_at(children, segs.drop_first()), mode, mtime },
            ),
            _ => cs,
        }
    }
}

// ── Lemmas on child lists ──────────────────────────────────────────

/// In a sorted list a name occurs at most once.
pub proof fn lemma_sorted_unique(cs: Seq<(Seq<char>, NodeView)>, i: int, j: int)
    requires
        sorted_names(cs),
        0 <= i < cs.len(),
        0 <= j < cs.len(),
        cs[i].0 == cs[j].0,
    ensures
        i == j,
{
    if i < j {
        assert(chars_lt(cs[i].0, cs[j].0));
        lemma_chars_lt_irreflexive(cs[i].0);
    } else if j < i {
        assert(chars_lt(cs[j].0, cs[i].0));
        lemma_chars_lt_irreflexive(cs[i].0);
    }
}

/// In a sorted list, the entry at `i` is what `lookup` finds by its name.
pub proof fn lemma_lookup_at(cs: Seq<(Seq<char>, NodeView)>, i: int)
    requires
        sorted_names(cs),
        0 <= i < cs.len(),
    ensures
        has_name(cs, cs[i].0),
        index_of_name(cs, cs[i].0) == i,
        lookup(cs, cs[i].0) == Some(cs[i].1),
{
    assert(has_name(cs, cs[i].0));
    let k = index_of_name(cs, cs[i].0);
    lemma_sorted_unique(cs, i, k);
}

/// `set_child` over a list whose first `k` names are below `name`.
proof fn lemma_set_child_skip(cs: Seq<(Seq<char>, NodeView)>, name: Seq<char>, node: NodeView, k: int)
    requires
        0 <= k <= cs.len(),
        forall|i: int| 0 <= i < k ==> chars_lt(#[trigger] cs[i].0, name),
    ensures
        set_child(cs, name, node) == cs.take(k) + set_child(cs.skip(k), name, node),
    decreases k,
{
    if k == 0 {
        assert(cs.take(0) + set_child(cs.skip(0), name, node) =~= set_child(cs, name, node)) by {
            assert(cs.skip(0) =~= cs);
        }
    } else {
        lemma_chars_lt_irreflexive(name);
        lemma_chars_lt_asymmetric(cs[0].0, name);
        assert(cs[0].0 != name);
        assert(!chars_lt(name, cs[0].0));
        let rest = cs.drop_first();
        lemma_set_child_skip(rest, name, node, k - 1);
        assert(rest.skip(k - 1) =~= cs.skip(k));
        assert(seq![cs[0]] + rest.take(k - 1) =~= cs.take(k));
        assert(set_child(cs, name, node) == seq![cs[0]] + set_child(rest, name, node));
        assert(seq![cs[0]] + (rest.take(k - 1) + set_child(cs.skip(k), name, node)) =~= cs.take(k) + set_child(cs.skip(k), name, node));
    }
}

/// Replacing at the index of an existing name.
pub proof fn lemma_set_child_existing(cs: Seq<(Seq<char>, NodeView)>, i: int, node: NodeView)
    requires
        sorted_names(cs),
        0 <= i < cs.len(),
    ensures
        set_child(cs, cs[i].0, node) == cs.update(i, (cs[i].0, node)),
{
    let name = cs[i].0;
    assert forall|j: int| 0 <= j < i implies chars_lt(#[trigger] cs[j].0, name) by {}
    lemma_set_child_skip(cs, name, node, i);
    let tail = cs.skip(i);
    assert(tail[0].0 == name);
    assert(set_child(tail, name, node) == tail.update(0, (name, node)));
    assert(cs.take(i) + tail.update(0, (name, node)) =~= cs.update(i, (name, node)));
}

/// Inserting a name that is absent, at the first index whose name is above it.
pub proof fn lemma_set_child_insert(cs: Seq<(Seq<char>, NodeView)>, k: int, name: Seq<char>, node: NodeView)
    requires
        0 <= k <= cs.len(),
        forall|i: int| 0 <= i < k ==> chars_lt(#[trigger] cs[i].0, name),
        k < cs.len() ==> chars_lt(name, cs[k].0),
    ensures
        set_child(cs, name, node) == cs.insert(k, (name, node)),
{
    lemma_set_child_skip(cs, name, node, k);
    let tail = cs.skip(k);
    if k < cs.len() {
        lemma_chars_lt_irreflexive(name);
        assert(tail[0].0 != name);
        assert(set_child(tail, name, node) == seq![(name, node)] + tail);
    } else {
        assert(tail =~= Seq::<(Seq<char>, NodeView)>::empty());
    }
    assert(cs.take(k) + set_child(tail, name, node) =~= cs.insert(k, (name, node)));
}


/// Where an absent name goes in a sorted list.
pub proof fn insertion_point(cs: Seq<(Seq<char>, NodeView)>, name: Seq<char>) -> (k: int)
    requires
        sorted_names(cs),
        !has_name(cs, name),
    ensures
        0 <= k <= cs.len(),
        forall|i: int| 0 <= i < k ==> chars_lt(#[trigger] cs[i].0, name),
        forall|i: int| k <= i < cs.len() ==> chars_lt(name, #[trigger] cs[i].0),
    decreases cs.len(),
{
    if cs.len() == 0 {
        0
    } else {
        lemma_chars_lt_total(name, cs[0].0);
        assert(cs[0].0 != name);
        if chars_lt(name, cs[0].0) {
            assert forall|i: int| 0 <= i < cs.len() implies chars_lt(name, #[trigger] cs[i].0) by {
                if i > 0 {
                    assert(chars_lt(cs[0].0, cs[i].0));
                    lemma_chars_lt_transitive(name, cs[0].0, cs[i].0);
                }
            }
            0
        } else {
            let rest = cs.drop_first();
            assert(sorted_names(rest)) by {
                assert forall|i: int, j: int| 0 <= i < j < rest.len() implies chars_lt(#[trigger] rest[i].0, #[trigger] rest[j].0) by {
                    assert(rest[i] == cs[i + 1] && rest[j] == cs[j + 1]);
                }
            }
            assert(!has_name(rest, name)) by {
                if has_name(rest, name) {
                    let j = choose|j: int| 0 <= j < rest.len() && rest[j].0 == name;
                    assert(cs[j + 1].0 == name);
                }
            }
            let k0 = insertion_point(rest, name);
            assert forall|i: int| 0 <= i < k0 + 1 implies chars_lt(#[trigger] cs[i].0, name) by {
                if i > 0 {
                    assert(cs[i] == rest[i - 1]);
                }
            }
            assert forall|i: int| k0 + 1 <= i < cs.len() implies chars_lt(name, #[trigger] cs[i].0) by {
                assert(cs[i] == rest[i - 1]);
            }
            k0 + 1
        }
    }
}

/// `set_child` keeps the list sorted, stores `node` under `name` and
/// leaves every other name as it was.
#[verifier::spinoff_prover]
#[verifier::rlimit(40)]
pub proof fn lemma_set_child(cs: Seq<(Seq<char>, NodeView)>, name: Seq<char>, node: NodeView)
    requires
        sorted_names(cs),
    ensures
        sorted_names(set_child(cs, name, node)),
        lookup(set_child(cs, name, node), name) == Some(node),
        forall|other: Seq<char>| other != name ==> lookup(#[trigger] set_child(cs, name, node), other) == lookup(cs, other),
        forall|other: Seq<char>| #[trigger] has_name(set_child(cs, name, node), other) <==> (has_name(cs, other) || other == name),
        wf_children(cs) && wf_node(node) ==> wf_children(set_child(cs, name, node)),
{
    let r = set_child(cs, name, node);
    if has_name(cs, name) {
        let i = index_of_name(cs, name);
        lemma_set_child_existing(cs, i, node);
        assert(r == cs.update(i, (name, node)));
        assert(sorted_names(r)) by {
            assert forall|a: int, b: int| 0 <= a < b < r.len() implies chars_lt(#[trigger] r[a].0, #[trigger] r[b].0) by {
                assert(r[a].0 == cs[a].0 && r[b].0 == cs[b].0);
            }
        }
        lemma_lookup_at(r, i);
        assert forall|other: Seq<char>| other != name implies lookup(#[trigger] set_child(cs, name, node), other) == lookup(cs, other) by {
            if has_name(cs, other) {
                let j = index_of_name(cs, other);
                assert(j != i);
                assert(r[j] == cs[j]);
                lemma_lookup_at(r, j);
                lemma_lookup_at(cs, j);
            } else {
                if has_name(r, other) {
                    let j = choose|j: int| 0 <= j < r.len() && r[j].0 == other;
                    assert(r[j].0 == cs[j].0);
                }
            }
        }
        assert forall|other: Seq<char>| #[trigger] has_name(set_child(cs, name, node), other) <==> (has_name(cs, other) || other == name) by {
            if has_name(r, other) {
                let j = choose|j: int| 0 <= j < r.len() && r[j].0 == other;
                assert(r[j].0 == cs[j].0);
            }
            if has_name(cs, other) {
                let j = choose|j: int| 0 <= j < cs.len() && cs[j].0 == other;
                assert(r[j].0 == cs[j].0);
            }
        }
        if wf_children(cs) && wf_node(node) {
            assert forall|a: int| 0 <= a < r.len() implies wf_node(#[trigger] r[a].1) by {
                if a != i {
                    assert(r[a] == cs[a]);
                }
            }
        }
    } else {
        let k = insertion_point(cs, name);
        lemma_set_child_insert(cs, k, name, node);
        assert(r == cs.insert(k, (name, node)));
        assert(sorted_names(r)) by {
            assert forall|a: int, b: int| 0 <= a < b < r.len() implies chars_lt(#[trigger] r[a].0, #[trigger] r[b].0) by {
                if b < k {
                    assert(r[a] == cs[a] && r[b] == cs[b]);
                } else if b == k {
                    assert(r[a] == cs[a]);
                } else if a < k {
                    assert(r[a] == cs[a] && r[b] == cs[b - 1]);
                    lemma_chars_lt_transitive(cs[a].0, name, cs[b - 1].0);
                } else if a == k {
                    assert(r[b] == cs[b - 1]);
                } else {
                    assert(r[a] == cs[a - 1] && r[b] == cs[b - 1]);
                }
            }
        }
        lemma_lookup_at(r, k);
        assert forall|other: Seq<char>| other != name implies lookup(#[trigger] set_child(cs, name, node), other) == lookup(cs, other) by {
            if has_name(cs, other) {
                let j = index_of_name(cs, other);
                let jr = if j < k { j } else { j + 1 };
                assert(r[jr] == cs[j]);
                lemma_lookup_at(r, jr);
                lemma_lookup_at(cs, j);
            } else {
                if has_name(r, other) {
                    let j = choose|j: int| 0 <= j < r.len() && r[j].0 == other;
                    if j < k {
                        assert(r[j] == cs[j]);
                    } else if j > k {
                        assert(r[j] == cs[j - 1]);
                    }
                }
            }
        }
        assert forall|other: Seq<char>| #[trigger] has_name(set_child(cs, name, node), other) <==> (has_name(cs, other) || other == name) by {
            if has_name(r, other) {
                let j = choose|j: int| 0 <= j < r.len() && r[j].0 == other;
                if j < k {
                    assert(r[j] == cs[j]);
                } else if j > k {
                    assert(r[j] == cs[j - 1]);
                }
            }
            if has_name(cs, other) {
                let j = choose|j: int| 0 <= j < cs.len() && cs[j].0 == other;
                let jr = if j < k { j } else { j + 1 };
                assert(r[jr] == cs[j]);
            }
        }
        if wf_children(cs) && wf_node(node) {
            assert forall|a: int| 0 <= a < r.len() implies wf_node(#[trigger] r[a].1) by {
                if a < k {
                    assert(r[a] == cs[a]);
                } else if a > k {
                    assert(r[a] == cs[a - 1]);
                }
            }
        }
    }
}

/// `remove_child` keeps the list sorted, drops `name` and leaves every
/// other name as it was.
#[verifier::spinoff_prover]
#[verifier::rlimit(40)]
pub proof fn lemma_remove_child(cs: Seq<(Seq<char>, NodeView)>, name: Seq<char>)
    requires
        sorted_names(cs),
    ensures
        sorted_names(remove_child(cs, name)),
        lookup(remove_child(cs, name), name) == None::<NodeView>,
        forall|other: Seq<char>| other != name ==> lookup(#[trigger] remove_child(cs, name), other) == lookup(cs, other),
        wf_children(cs) ==> wf_children(remove_child(cs, name)),
{
    let r = remove_child(cs, name);
    if has_name(cs, name) {
        let i = index_of_name(cs, name);
        assert(r == cs.remove(i));
        assert(sorted_names(r)) by {
            assert forall|a: int, b: int| 0 <= a < b < r.len() implies chars_lt(#[trigger] r[a].0, #[trigger] r[b].0) by {
                if b < i {
                    assert(r[a] == cs[a] && r[b] == cs[b]);
                } else if a < i {
                    assert(r[a] == cs[a] && r[b] == cs[b + 1]);
                } else {
                    assert(r[a] == cs[a + 1] && r[b] == cs[b + 1]);
                }
            }
        }
        assert(!has_name(r, name)) by {
            if has_name(r, name) {
                let j = choose|j: int| 0 <= j < r.len() && r[j].0 == name;
                if j < i {
                    assert(r[j] == cs[j]);
                    lemma_sorted_unique(cs, j, i);
                } else {
                    assert(r[j] == cs[j + 1]);
                    lemma_sorted_unique(cs, j + 1, i);
                }
            }
        }
        assert forall|other: Seq<char>| other != name implies lookup(#[trigger] remove_child(cs, name), other) == lookup(cs, other) by {
            if has_name(cs, other) {
                let j = index_of_name(cs, other);
                assert(j != i);
                let jr = if j < i { j } else { j - 1 };
                assert(r[jr] == cs[j]);
                lemma_lookup_at(r, jr);
                lemma_lookup_at(cs, j);
            } else {
                if has_name(r, other) {
                    let j = choose|j: int| 0 <= j < r.len() && r[j].0 == other;
                    if j < i {
                        assert(r[j] == cs[j]);
                    } else {
                        assert(r[j] == cs[j + 1]);
                    }
                }
            }
        }
        if wf_children(cs) {
            assert forall|a: int| 0 <= a < r.len() implies wf_node(#[trigger] r[a].1) by {
                if a < i {
                    assert(r[a] == cs[a]);
                } else {
                    assert(r[a] == cs[a + 1]);
                }
            }
        }
    }
}

// ── Executable core ────────────────────────────────────────────────

/// The values of a list of strings.
pub open spec fn strings_view(v: Seq<String>) -> Seq<Seq<char>> {
    v.map_values(|s: String| s@)
}

/// Splits a normalized absolute VFS path into its segments; the root
/// (`/`) yields no segment (the root itself is not a node).
pub fn segments(path: &str) -> (v: Vec<String>)
    ensures
        strings_view(v@) == segments_of(path@),
{
    let parts = split_segments(path);
    let mut out: Vec<String> = Vec::new();
    let mut i: usize = 0;
    while i < parts.len()
        invariant
            i <= parts.len(),
            out@.len() == i,
            forall|j: int| 0 <= j < i ==> #[trigger] out@[j]@ == parts@[j]@,
        decreases parts.len() - i,
    {
        let s = string_of(&parts[i]);
        out.push(s);
        i = i + 1;
    }
    assert(strings_view(out@) =~= char_seqs(parts@));
    out
}

/// Index of the child called `name`.
fn find_child(cs: &Vec<(String, UpperNode)>, name: &Vec<char>) -> (r: Option<usize>)
    ensures
        match r {
            Some(i) => i < cs@.len() && cs@[i as int].0@ == name@,
            None => !has_name(children_view(cs@), name@),
        },
{
    proof {
        lemma_children_view(cs@);
    }
    let mut i: usize = 0;
    while i < cs.len()
        invariant
            i <= cs@.len(),
            children_view(cs@).len() == cs@.len(),
            forall|j: int| 0 <= j < cs@.len() ==> #[trigger] children_view(cs@)[j] == (cs@[j].0@, node_view(cs@[j].1)),
            forall|j: int| 0 <= j < i ==> cs@[j].0@ != name@,
        decreases cs.len() - i,
    {
        let cname = chars_of(cs[i].0.as_str());
        if compare_chars(&cname, name) == 0 {
            return Some(i);
        }
        i = i + 1;
    }
    assert(!has_name(children_view(cs@), name@)) by {
        if has_name(children_view(cs@), name@) {
            let j = choose|j: int| 0 <= j < children_view(cs@).len() && children_view(cs@)[j].0 == name@;
            assert(children_view(cs@)[j] == (cs@[j].0@, node_view(cs@[j].1)));
        }
    }
    None
}

/// Stores `node` under `name`, keeping the list sorted.
fn put_child(cs: &mut Vec<(String, UpperNode)>, name: String, node: UpperNode)
    requires
        sorted_names(children_view(old(cs)@)),
    ensures
        children_view(final(cs)@) == set_child(children_view(old(cs)@), name@, node_view(node)),
{
    let ghost old_v = children_view(cs@);
    proof {
        lemma_children_view(cs@);
    }
    let name_chars = chars_of(name.as_str());
    let mut i: usize = 0;
    while i < cs.len() && compare_chars(&chars_of(cs[i].0.as_str()), &name_chars) < 0
        invariant
            i <= cs@.len(),
            cs@ == old(cs)@,
            name_chars@ == name@,
            old_v == children_view(cs@),
            old_v.len() == cs@.len(),
            forall|j: int| 0 <= j < cs@.len() ==> #[trigger] old_v[j] == (cs@[j].0@, node_view(cs@[j].1)),
            forall|j: int| 0 <= j < i ==> chars_lt(#[trigger] old_v[j].0, name@),
        decreases cs.len() - i,
    {
        assert(old_v[i as int] == (cs@[i as int].0@, node_view(cs@[i as int].1)));
        i = i + 1;
    }
    let c: i8 = if i < cs.len() { compare_chars(&chars_of(cs[i].0.as_str()), &name_chars) } else { 1 };
    proof {
        if i < cs@.len() {
            assert(old_v[i as int] == (cs@[i as int].0@, node_view(cs@[i as int].1)));
        }
    }
    let ghost nv = node_view(node);
    if i < cs.len() && c == 0 {
        proof {
            lemma_set_child_existing(old_v, i as int, nv);
        }
        cs.set(i, (name, node));
        proof {
            lemma_children_view(cs@);
            assert(old_v[i as int].0 == name@);
            assert(children_view(cs@) =~= old_v.update(i as int, (old_v[i as int].0, nv)));
        }
    } else {
        proof {
            if i < cs@.len() {
                assert(c > 0);
                assert(chars_lt(name@, old_v[i as int].0));
            }
            lemma_set_child_insert(old_v, i as int, name@, nv);
        }
        cs.insert(i, (name, node));
        proof {
            lemma_children_view(cs@);
            assert(children_view(cs@) =~= old_v.insert(i as int, (name@, nv)));
        }
    }
}

/// Why a structural edit was refused.
pub enum TreeFault {
    /// A parent component is absent or deleted.
    NotFound,
    /// A parent component is a file or symlink.
    NotDir,
    /// A directory cannot be attached over an existing node.
    Exists,
    /// A file or symlink cannot replace a directory.
    IsDir,
}

/// Whether `attach` of `node` at `segs` is refused, and why.
pub open spec fn attach_fault(cs: Seq<(Seq<char>, NodeView)>, segs: Seq<Seq<char>>, node: NodeView) -> Option<TreeFault> {
    match walk_to(cs, segs.drop_last()) {
        ParentView::NotFound => Some(TreeFault::NotFound),
        ParentView::NotDir => Some(TreeFault::NotDir),
        ParentView::Dir(pcs) => match lookup(pcs, segs.last()) {
            Some(existing) => if node is Dir {
                Some(TreeFault::Exists)
            } else if existing is Dir {
                Some(TreeFault::IsDir)
            } else {
                None
            },
            None => None,
        },
    }
}

/// Result of descending the tree to a path.
#[derive(Debug)]
pub enum Descend<'a> {
    /// A node exists at exactly this path (may be a Whiteout).
    Found(&'a UpperNode),
    /// No node at this path and no whiteout above it: the caller may fall
    /// through to the lower layer.
    Missing,
    /// A whiteout sits above this path: ENOENT, no lower fall-through.
    Blocked,
    /// A file or symlink shadows an ancestor directory: ENOTDIR.
    NotDir,
}

pub open spec fn descend_value(d: Descend) -> DescendView {
    match d {
        Descend::Found(n) => DescendView::Found(node_view(*n)),
        Descend::Missing => DescendView::Missing,
        Descend::Blocked => DescendView::Blocked,
        Descend::NotDir => DescendView::NotDir,
    }
}

impl UpperNode {
    /// The kind a listing reports; a whiteout is not a visible node and
    /// reports as a file (callers must not expose it).
    pub fn node_type(&self) -> (t: NodeType)
        ensures
            t == view_node_type(node_view(*self)),
    {
        match self {
            UpperNode::File { .. } => NodeType::File,
            UpperNode::Dir { .. } => NodeType::Directory,
            UpperNode::Symlink { .. } => NodeType::Symlink,
            UpperNode::Whiteout => NodeType::File,
        }
    }

    pub fn is_content(&self) -> (b: bool)
        ensures
            b == !(*self is Whiteout),
    {
        !matches!(self, UpperNode::Whiteout)
    }
}

impl<'a> Descend<'a> {
    /// A whiteout at or above the path.
    pub fn is_blocked_or_whiteout(&self) -> (b: bool)
        ensures
            b == (*self is Blocked || (*self matches Descend::Found(n) && *n is Whiteout)),
    {
        match self {
            Descend::Blocked => true,
            Descend::Found(n) => matches!(n, UpperNode::Whiteout),
            _ => false,
        }
    }

    /// Content node at the exact path (whiteouts excluded).
    pub fn content(&self) -> (r: Option<&'a UpperNode>)
        ensures
            match r {
                Some(n) => *self matches Descend::Found(m) && *m == *n && !(*n is Whiteout),
                None => !(*self matches Descend::Found(m) && !(*m is Whiteout)),
            },
    {
        match self {
            Descend::Found(n) => if n.is_content() {
                Some(*n)
            } else {
                None
            },
            _ => None,
        }
    }
}

fn descend_rec<'a>(cs: &'a Vec<(String, UpperNode)>, segs: &Vec<String>, i: usize) -> (d: Descend<'a>)
    requires
        i <= segs@.len(),
        wf_children(children_view(cs@)),
    ensures
        descend_value(d) == descend_in(children_view(cs@), strings_view(segs@).skip(i as int)),
    decreases segs@.len() - i,
{
    let ghost v = children_view(cs@);
    let ghost rest = strings_view(segs@).skip(i as int);
    if i == segs.len() {
        assert(rest.len() == 0);
        return Descend::Missing;
    }
    assert(rest[0] == segs@[i as int]@);
    let name = chars_of(segs[i].as_str());
    match find_child(cs, &name) {
        None => Descend::Missing,
        Some(idx) => {
            proof {
                lemma_children_view(cs@);
                lemma_lookup_at(v, idx as int);
                assert(v[idx as int] == (cs@[idx as int].0@, node_view(cs@[idx as int].1)));
            }
            let node = &cs[idx].1;
            if i == segs.len() - 1 {
                return Descend::Found(node);
            }
            match node {
                UpperNode::Whiteout => Descend::Blocked,
                UpperNode::Dir { children, .. } => {
                    proof {
                        assert(wf_node(v[idx as int].1));
                        assert(rest.drop_first() =~= strings_view(segs@).skip(i + 1));
                    }
                    descend_rec(children, segs, i + 1)
                },
                _ => Descend::NotDir,
            }
        },
    }
}

fn attach_rec(cs: &mut Vec<(String, UpperNode)>, segs: &Vec<String>, i: usize, node: UpperNode) -> (r: Result<(), TreeFault>)
    requires
        i < segs@.len(),
        wf_children(children_view(old(cs)@)),
        wf_node(node_view(node)),
    ensures
        wf_children(children_view(final(cs)@)),
        match attach_fault(children_view(old(cs)@), strings_view(segs@).skip(i as int), node_view(node)) {
            Some(f) => r == Err::<(), TreeFault>(f) && children_view(final(cs)@) == children_view(old(cs)@),
            None => r is Ok && children_view(final(cs)@) == replace_at(
                children_view(old(cs)@),
                strings_view(segs@).skip(i as int),
                node_view(node),
            ),
        },
    decreases segs@.len() - i,
{
    let ghost v = children_view(cs@);
    let ghost rest = strings_view(segs@).skip(i as int);
    let ghost nv = node_view(node);
    proof {
        lemma_children_view(cs@);
        assert(rest[0] == segs@[i as int]@);
    }
    let name = chars_of(segs[i].as_str());
    let found = find_child(cs, &name);
    if i == segs.len() - 1 {
        proof {
            assert(rest.drop_last() =~= Seq::<Seq<char>>::empty());
            assert(rest.last() == rest[0]);
        }
        if let Some(idx) = found {
            proof {
                lemma_lookup_at(v, idx as int);
            }
            let existing_is_dir = matches!(cs[idx].1, UpperNode::Dir { .. });
            if matches!(node, UpperNode::Dir { .. }) {
                return Err(TreeFault::Exists);
            }
            if existing_is_dir {
                return Err(TreeFault::IsDir);
            }
        }
        proof {
            lemma_set_child(v, rest[0], nv);
        }
        put_child(cs, segs[i].clone(), node);
        return Ok(());
    }
    proof {
        assert(rest.drop_last()[0] == rest[0]);
        assert(rest.drop_last().drop_first() =~= strings_view(segs@).skip(i + 1).drop_last());
        assert(rest.drop_first() =~= strings_view(segs@).skip(i + 1));
    }
    match found {
        None => Err(TreeFault::NotFound),
        Some(idx) => {
            proof {
                lemma_lookup_at(v, idx as int);
            }
            match &cs[idx].1 {
                UpperNode::Whiteout => {
                    return Err(TreeFault::NotFound);
                },
                UpperNode::File { .. } => {
                    return Err(TreeFault::NotDir);
                },
                UpperNode::Symlink { .. } => {
                    return Err(TreeFault::NotDir);
                },
                UpperNode::Dir { .. } => {},
            }
            let (cname, child) = cs.remove(idx);
            match child {
                UpperNode::Dir { children, mode, mtime } => {
                    let ghost old_children = children_view(children@);
                    let mut ch = children;
                    proof {
                        assert(wf_node(v[idx as int].1));
                    }
                    let r = attach_rec(&mut ch, segs, i + 1, node);
                    let ghost new_dir = NodeView::Dir { children: children_view(ch@), mode, mtime };
                    cs.insert(idx, (cname, UpperNode::Dir { children: ch, mode, mtime }));
                    proof {
                        lemma_children_view(cs@);
                        assert(children_view(cs@) =~= v.update(idx as int, (v[idx as int].0, new_dir)));
                        lemma_set_child_existing(v, idx as int, new_dir);
                        lemma_set_child(v, v[idx as int].0, new_dir);
                        if r is Err {
                            assert(new_dir == v[idx as int].1);
                            assert(children_view(cs@) =~= v);
                        }
                    }
                    r
                },
                _ => {
                    proof {
                        assert(false);
                    }
                    Err(TreeFault::NotDir)
                },
            }
        },
    }
}

fn detach_rec(cs: &mut Vec<(String, UpperNode)>, segs: &Vec<String>, i: usize)
    requires
        i < segs@.len(),
        wf_children(children_view(old(cs)@)),
    ensures
        wf_children(children_view(final(cs)@)),
        children_view(final(cs)@) == remove_at(children_view(old(cs)@), strings_view(segs@).skip(i as int)),
    decreases segs@.len() - i,
{
    let ghost v = children_view(cs@);
    let ghost rest = strings_view(segs@).skip(i as int);
    proof {
        lemma_children_view(cs@);
        assert(rest[0] == segs@[i as int]@);
        lemma_remove_child(v, rest[0]);
    }
    let name = chars_of(segs[i].as_str());
    let found = find_child(cs, &name);
    match found {
        None => {
            return;
        },
        Some(idx) => {
            proof {
                lemma_lookup_at(v, idx as int);
            }
            if i == segs.len() - 1 {
                cs.remove(idx);
                proof {
                    lemma_children_view(cs@);
                    assert(children_view(cs@) =~= v.remove(idx as int));
                }
                return;
            }
            proof {
                assert(rest.drop_first() =~= strings_view(segs@).skip(i + 1));
            }
            if !matches!(cs[idx].1, UpperNode::Dir { .. }) {
                return;
            }
            let (cname, child) = cs.remove(idx);
            match child {
                UpperNode::Dir { children, mode, mtime } => {
                    let mut ch = children;
                    proof {
                        assert(wf_node(v[idx as int].1));
                    }
                    detach_rec(&mut ch, segs, i + 1);
                    let ghost new_dir = NodeView::Dir { children: children_view(ch@), mode, mtime };
                    cs.insert(idx, (cname, UpperNode::Dir { children: ch, mode, mtime }));
                    proof {
                        lemma_children_view(cs@);
                        assert(children_view(cs@) =~= v.update(idx as int, (v[idx as int].0, new_dir)));
                        lemma_set_child_existing(v, idx as int, new_dir);
                        lemma_set_child(v, v[idx as int].0, new_dir);
                    }
                },
                _ => {
                    proof {
                        assert(false);
                    }
                },
            }
        },
    }
}

/// The error `attach`-like edits report for a refusal at `path`.
pub open spec fn fault_error(f: TreeFault, path: Seq<char>, e: VfsError) -> bool {
    match f {
        TreeFault::NotFound => e matches VfsError::NotFound(p) && p@ == path,
        TreeFault::NotDir => e matches VfsError::NotADirectory(p) && p@ == path,
        TreeFault::Exists => e matches VfsError::AlreadyExists(p) && p@ == path,
        TreeFault::IsDir => e matches VfsError::IsADirectory(p) && p@ == path,
    }
}

fn fault_to_error(f: TreeFault, path: &str) -> (e: VfsError)
    ensures
        fault_error(f, path@, e),
{
    let p = path.to_owned();
    match f {
        TreeFault::NotFound => VfsError::NotFound(p),
        TreeFault::NotDir => VfsError::NotADirectory(p),
        TreeFault::Exists => VfsError::AlreadyExists(p),
        TreeFault::IsDir => VfsError::IsADirectory(p),
    }
}

/// Pre-order listing of the nodes in `cs` and below, each with its path
/// under `base`; siblings in name order.
pub open spec fn preorder(cs: Seq<(Seq<char>, NodeView)>, base: Seq<char>) -> Seq<(Seq<char>, NodeView)>
    decreases cs,
{
    if cs.len() == 0 {
        seq![]
    } else {
        let p = joined(base, cs[0].0);
        let below = match cs[0].1 {
            NodeView::Dir { children, .. } => preorder(children, p),
            _ => seq![],
        };
        seq![(p, cs[0].1)] + below + preorder(cs.drop_first(), base)
    }
}

/// Post-order listing: every node after all nodes below it.
pub open spec fn postorder(cs: Seq<(Seq<char>, NodeView)>, base: Seq<char>) -> Seq<(Seq<char>, NodeView)>
    decreases cs,
{
    if cs.len() == 0 {
        seq![]
    } else {
        let p = joined(base, cs[0].0);
        let below = match cs[0].1 {
            NodeView::Dir { children, .. } => postorder(children, p),
            _ => seq![],
        };
        below + seq![(p, cs[0].1)] + postorder(cs.drop_first(), base)
    }
}

/// The value of a walk result.
pub open spec fn walked_view(v: Seq<(String, &UpperNode)>) -> Seq<(Seq<char>, NodeView)> {
    v.map_values(|e: (String, &UpperNode)| (e.0@, node_view(*e.1)))
}

fn walk_from<'a>(cs: &'a Vec<(String, UpperNode)>, i: usize, base: &str, post: bool, out: &mut Vec<(String, &'a UpperNode)>)
    requires
        i <= cs@.len(),
    ensures
        walked_view(final(out)@) == walked_view(old(out)@) + if post {
            postorder(children_view(cs@).skip(i as int), base@)
        } else {
            preorder(children_view(cs@).skip(i as int), base@)
        },
    decreases cs@, cs@.len() - i,
{
    let ghost rest = children_view(cs@).skip(i as int);
    proof {
        lemma_children_view(cs@);
    }
    if i == cs.len() {
        assert(rest.len() == 0);
        assert(walked_view(out@) =~= walked_view(out@) + Seq::<(Seq<char>, NodeView)>::empty());
        return;
    }
    let ghost out0 = walked_view(out@);
    let path = crate::vfs::paths::vfs_join(base, cs[i].0.as_str());
    let node = &cs[i].1;
    proof {
        assert(rest[0] == (cs@[i as int].0@, node_view(cs@[i as int].1)));
        assert(rest.drop_first() =~= children_view(cs@).skip(i + 1));
    }
    let ghost entry = (path@, node_view(*node));
    if !post {
        out.push((path.clone(), node));
        assert(walked_view(out@) =~= out0 + seq![entry]);
    }
    let ghost out1 = walked_view(out@);
    match node {
        UpperNode::Dir { children, .. } => {
            proof {
                assert(children_view(children@).skip(0) =~= children_view(children@));
                assert(decreases_to!(cs@ => cs@[i as int]));
            }
            walk_from(children, 0, path.as_str(), post, out);
        },
        _ => {
            assert(walked_view(out@) =~= out1 + Seq::<(Seq<char>, NodeView)>::empty());
        },
    }
    let ghost out2 = walked_view(out@);
    if post {
        out.push((path, node));
        assert(walked_view(out@) =~= out2 + seq![entry]);
    }
    walk_from(cs, i + 1, base, post, out);
    proof {
        if post {
            assert(walked_view(out@) =~= out0 + postorder(rest, base@));
        } else {
            assert(walked_view(out@) =~= out0 + preorder(rest, base@));
        }
    }
}

/// What sits at a path for an in-place change: the node, or why there is
/// none (an absent or deleted parent or node, or a file or symlink parent).
pub enum LocateView {
    At(NodeView),
    NotFound,
    NotDir,
}

pub open spec fn locate(cs: Seq<(Seq<char>, NodeView)>, segs: Seq<Seq<char>>) -> LocateView {
    match walk_to(cs, segs.drop_last()) {
        ParentView::NotFound => LocateView::NotFound,
        ParentView::NotDir => LocateView::NotDir,
        ParentView::Dir(pcs) => match lookup(pcs, segs.last()) {
            Some(n) => LocateView::At(n),
            None => LocateView::NotFound,
        },
    }
}

/// An in-place change of one node.
pub enum Edit<'a> {
    /// Append bytes to a file and set its modification time.
    Append { data: &'a [u8], mtime: SystemTime },
    /// Set the mode of a file or directory.
    Mode(u32),
    /// Set the modification time of a file, directory or symlink.
    Mtime(SystemTime),
}

/// The node after `e`, or `None` when `e` does not apply to its kind.
pub open spec fn edited(n: NodeView, e: Edit) -> Option<NodeView> {
    match e {
        Edit::Append { data, mtime } => match n {
            NodeView::File { content, mode, .. } => Some(NodeView::File { content: content + data@, mode, mtime }),
            _ => None,
        },
        Edit::Mode(m) => match n {
            NodeView::File { content, mtime, .. } => Some(NodeView::File { content, mode: m, mtime }),
            NodeView::Dir { children, mtime, .. } => Some(NodeView::Dir { children, mode: m, mtime }),
            _ => None,
        },
        Edit::Mtime(t) => match n {
            NodeView::File { content, mode, .. } => Some(NodeView::File { content, mode, mtime: t }),
            NodeView::Dir { children, mode, .. } => Some(NodeView::Dir { children, mode, mtime: t }),
            NodeView::Symlink { target, .. } => Some(NodeView::Symlink { target, mtime: t }),
            NodeView::Whiteout => None,
        },
    }
}

/// Why an in-place change was refused.
pub enum EditFault {
    NotFound,
    NotDir,
    /// The change does not apply to the node's kind.
    WrongKind { is_dir: bool },
}

fn apply_edit(node: UpperNode, e: &Edit) -> (r: (UpperNode, bool))
    ensures
        match edited(node_view(node), *e) {
            Some(n2) => r.1 && node_view(r.0) == n2,
            None => !r.1 && r.0 == node,
        },
{
    match (node, e) {
        (UpperNode::File { content, mode, .. }, Edit::Append { data, mtime }) => {
            let mut c = content;
            let ghost c0 = c@;
            let mut j: usize = 0;
            while j < data.len()
                invariant
                    j <= data@.len(),
                    c@ == c0 + data@.subrange(0, j as int),
                decreases data.len() - j,
            {
                c.push(data[j]);
                j = j + 1;
                assert(c@ =~= c0 + data@.subrange(0, j as int));
            }
            assert(data@.subrange(0, data@.len() as int) =~= data@);
            (UpperNode::File { content: c, mode, mtime: *mtime }, true)
        },
        (UpperNode::File { content, mtime, .. }, Edit::Mode(m)) => (UpperNode::File { content, mode: *m, mtime }, true),
        (UpperNode::Dir { children, mtime, .. }, Edit::Mode(m)) => (UpperNode::Dir { children, mode: *m, mtime }, true),
        (UpperNode::File { content, mode, .. }, Edit::Mtime(t)) => (UpperNode::File { content, mode, mtime: *t }, true),
        (UpperNode::Dir { children, mode, .. }, Edit::Mtime(t)) => (UpperNode::Dir { children, mode, mtime: *t }, true),
        (UpperNode::Symlink { target, .. }, Edit::Mtime(t)) => (UpperNode::Symlink { target, mtime: *t }, true),
        (n, _) => (n, false),
    }
}

fn edit_rec(cs: &mut Vec<(String, UpperNode)>, segs: &Vec<String>, i: usize, e: &Edit) -> (r: Result<(), EditFault>)
    requires
        i < segs@.len(),
        wf_children(children_view(old(cs)@)),
    ensures
        wf_children(children_view(final(cs)@)),
        ({
            let v = children_view(old(cs)@);
            let rest = strings_view(segs@).skip(i as int);
            match locate(v, rest) {
                LocateView::NotFound => r == Err::<(), EditFault>(EditFault::NotFound) && children_view(final(cs)@) == v,
                LocateView::NotDir => r == Err::<(), EditFault>(EditFault::NotDir) && children_view(final(cs)@) == v,
                LocateView::At(n) => match edited(n, *e) {
                    Some(n2) => r is Ok && children_view(final(cs)@) == replace_at(v, rest, n2),
                    None => r == Err::<(), EditFault>(EditFault::WrongKind { is_dir: n is Dir }) && children_view(final(cs)@) == v,
                },
            }
        }),
    decreases segs@.len() - i,
{
    let ghost v = children_view(cs@);
    let ghost rest = strings_view(segs@).skip(i as int);
    let ghost s0 = rest[0];
    proof {
        lemma_children_view(cs@);
        assert(s0 == segs@[i as int]@);
    }
    let name = chars_of(segs[i].as_str());
    let found = find_child(cs, &name);
    if i == segs.len() - 1 {
        proof {
            assert(rest.drop_last() =~= Seq::<Seq<char>>::empty());
            assert(rest.last() == s0);
        }
        match found {
            None => {
                return Err(EditFault::NotFound);
            },
            Some(idx) => {
                proof {
                    lemma_lookup_at(v, idx as int);
                }
                let is_dir = matches!(cs[idx].1, UpperNode::Dir { .. });
                let (cname, node) = cs.remove(idx);
                let ghost nv = node_view(node);
                let (node2, applied) = apply_edit(node, e);
                let ghost nv2 = node_view(node2);
                cs.insert(idx, (cname, node2));
                proof {
                    lemma_children_view(cs@);
                    assert(children_view(cs@) =~= v.update(idx as int, (s0, nv2)));
                    lemma_set_child_existing(v, idx as int, nv2);
                    lemma_set_child(v, s0, nv2);
                    if !applied {
                        assert(children_view(cs@) =~= v);
                    }
                }
                if applied {
                    return Ok(());
                } else {
                    return Err(EditFault::WrongKind { is_dir });
                }
            },
        }
    }
    proof {
        assert(rest.drop_last()[0] == s0);
        assert(rest.drop_last().drop_first() =~= strings_view(segs@).skip(i + 1).drop_last());
        assert(rest.drop_first() =~= strings_view(segs@).skip(i + 1));
        assert(rest.drop_first().last() == rest.last());
    }
    match found {
        None => Err(EditFault::NotFound),
        Some(idx) => {
            proof {
                lemma_lookup_at(v, idx as int);
            }
            match &cs[idx].1 {
                UpperNode::Whiteout => {
                    return Err(EditFault::NotFound);
                },
                UpperNode::File { .. } => {
                    return Err(EditFault::NotDir);
                },
                UpperNode::Symlink { .. } => {
                    return Err(EditFault::NotDir);
                },
                UpperNode::Dir { .. } => {},
            }
            let (cname, child) = cs.remove(idx);
            match child {
                UpperNode::Dir { children, mode, mtime } => {
                    let mut ch = children;
                    proof {
                        assert(wf_node(v[idx as int].1));
                    }
                    let r = edit_rec(&mut ch, segs, i + 1, e);
                    let ghost new_dir = NodeView::Dir { children: children_view(ch@), mode, mtime };
                    cs.insert(idx, (cname, UpperNode::Dir { children: ch, mode, mtime }));
                    proof {
                        lemma_children_view(cs@);
                        assert(children_view(cs@) =~= v.update(idx as int, (s0, new_dir)));
                        lemma_set_child_existing(v, idx as int, new_dir);
                        lemma_set_child(v, s0, new_dir);
                        if r is Err {
                            assert(new_dir == v[idx as int].1);
                            assert(children_view(cs@) =~= v);
                        }
                    }
                    r
                },
                _ => {
                    proof {
                        assert(false);
                    }
                    Err(EditFault::NotDir)
                },
            }
        },
    }
}

/// The overlay upper layer: the root directory's children.
#[derive(Debug)]
pub struct OverlayTree {
    children: Vec<(String, UpperNode)>,
}

impl View for OverlayTree {
    type V = Seq<(Seq<char>, NodeView)>;

    closed spec fn view(&self) -> Seq<(Seq<char>, NodeView)> {
        children_view(self.children@)
    }
}

impl Default for OverlayTree {
    fn default() -> (t: Self)
        ensures
            t.wf(),
            t@ == Seq::<(Seq<char>, NodeView)>::empty(),
    {
        OverlayTree::new()
    }
}

impl OverlayTree {
    /// Every directory level of the tree is sorted by name.
    pub open spec fn wf(&self) -> bool {
        wf_children(self@)
    }

    pub fn new() -> (t: Self)
        ensures
            t.wf(),
            t@ == Seq::<(Seq<char>, NodeView)>::empty(),
    {
        let t = OverlayTree { children: Vec::new() };
        assert(t@ =~= Seq::<(Seq<char>, NodeView)>::empty());
        t
    }

    /// Read-only descent to `path` (a normalized absolute VFS path).
    pub fn descend(&self, path: &str) -> (d: Descend<'_>)
        requires
            self.wf(),
        ensures
            descend_value(d) == descend_in(self@, segments_of(path@)),
    {
        let segs = segments(path);
        assert(strings_view(segs@).skip(0) =~= strings_view(segs@));
        descend_rec(&self.children, &segs, 0)
    }

    /// Read-only descent along a list of path segments.
    pub fn descend_segments(&self, segs: &Vec<String>) -> (d: Descend<'_>)
        requires
            self.wf(),
        ensures
            descend_value(d) == descend_in(self@, strings_view(segs@)),
    {
        assert(strings_view(segs@).skip(0) =~= strings_view(segs@));
        descend_rec(&self.children, segs, 0)
    }

    /// Attaches a content node at `path`, replacing any file, symlink or
    /// whiteout. A file or symlink over a directory is `IsADirectory`; a
    /// directory over any existing node is `AlreadyExists` (resurrection
    /// goes through `ensure_dirs`). Parents must exist (`ensure_dirs`).
    pub fn attach(&mut self, path: &str, node: UpperNode) -> (r: Result<(), VfsError>)
        requires
            old(self).wf(),
            wf_node(node_view(node)),
            segments_of(path@).len() > 0,
        ensures
            final(self).wf(),
            match attach_fault(old(self)@, segments_of(path@), node_view(node)) {
                Some(f) => r matches Err(e) && fault_error(f, path@, e) && final(self)@ == old(self)@,
                None => r is Ok && final(self)@ == replace_at(old(self)@, segments_of(path@), node_view(node)),
            },
    {
        let segs = segments(path);
        assert(strings_view(segs@).skip(0) =~= strings_view(segs@));
        match attach_rec(&mut self.children, &segs, 0, node) {
            Ok(()) => Ok(()),
            Err(f) => Err(fault_to_error(f, path)),
        }
    }

    /// Replaces the subtree at `path` with a single whiteout leaf. Missing
    /// ancestors get scaffold directories (the upper tree is sparse), whose
    /// mode the lower layer's probe gives (`0o755` when it gives none).
    /// Nothing changes for the root, or when an ancestor is a whiteout, a
    /// file or a symlink (the path is already invisible).
    pub fn put_whiteout<F: Fn(&str) -> Option<u32>>(&mut self, path: &str, lower_mode: &F)
        requires
            old(self).wf(),
            forall|p: &str| lower_mode.requires((p,)),
        ensures
            final(self).wf(),
            ({
                let segs = segments_of(path@);
                if segs.len() > 0 && prefix_clear(old(self)@, segs.drop_last()) {
                    exists|made: Seq<NodeView>| {
                        &&& scaffold_ok(old(self)@, segs.drop_last(), made, *lower_mode, Seq::<Seq<char>>::empty())
                        &&& #[trigger] replace_at(ensure_at(old(self)@, segs.drop_last(), made), segs, NodeView::Whiteout) == final(self)@
                    }
                } else {
                    final(self)@ == old(self)@
                }
            }),
    {
        let segs = segments(path);
        if segs.len() == 0 {
            return;
        }
        proof {
            lemma_segments_shape(path@);
            reveal_strlit("/");
            assert(strings_view(segs@).take(0) =~= Seq::<Seq<char>>::empty());
            assert("/"@ =~= absolute_of(Seq::<Seq<char>>::empty()));
            assert(strings_view(segs@).skip(0) =~= strings_view(segs@));
            assert forall|k: int| 0 <= k < segs@.len() implies (#[trigger] segs@[k])@.len() > 0 by {
                assert(strings_view(segs@)[k] == segs@[k]@);
            }
        }
        let made = put_whiteout_rec(&mut self.children, &segs, 0, "/", lower_mode);
        proof {
            let sv = segments_of(path@);
            if prefix_clear(old(self)@, sv.drop_last()) {
                assert(replace_at(ensure_at(old(self)@, sv.drop_last(), made@), sv, NodeView::Whiteout) == self@);
            }
        }
    }

    /// Makes every component of `path` a directory. A missing component
    /// becomes an empty directory; a whiteout is resurrected as a fresh
    /// directory whose deleted lower children stay hidden behind whiteout
    /// children (one per name `lower_readdir` lists for it). Created
    /// directories take the mode `lower_mode` gives (`0o755` otherwise).
    /// A file or symlink on the way is `NotADirectory` for the path up to
    /// it, and then nothing has changed.
    pub fn ensure_dirs<G: Fn(&str) -> Option<Vec<String>>, F: Fn(&str) -> Option<u32>>(
        &mut self,
        path: &str,
        lower_readdir: &G,
        lower_mode: &F,
    ) -> (r: Result<(), VfsError>)
        requires
            old(self).wf(),
            forall|p: &str| lower_readdir.requires((p,)),
            forall|p: &str| lower_mode.requires((p,)),
        ensures
            final(self).wf(),
            ({
                let segs = segments_of(path@);
                match ensure_fault(old(self)@, segs) {
                    Some(k) => {
                        &&& r matches Err(VfsError::NotADirectory(p)) && p@ == absolute_of(segs.take(k + 1 as int))
                        &&& final(self)@ == old(self)@
                    },
                    None => {
                        &&& r is Ok
                        &&& exists|made: Seq<NodeView>| {
                            &&& resurrect_ok(old(self)@, segs, made, *lower_readdir, *lower_mode, Seq::<Seq<char>>::empty())
                            &&& #[trigger] ensure_at(old(self)@, segs, made) == final(self)@
                        }
                    },
                }
            }),
    {
        let segs = segments(path);
        proof {
            lemma_segments_shape(path@);
            reveal_strlit("/");
            assert(strings_view(segs@).take(0) =~= Seq::<Seq<char>>::empty());
            assert("/"@ =~= absolute_of(Seq::<Seq<char>>::empty()));
            assert(strings_view(segs@).skip(0) =~= strings_view(segs@));
            assert forall|k: int| 0 <= k < segs@.len() implies (#[trigger] segs@[k])@.len() > 0 by {
                assert(strings_view(segs@)[k] == segs@[k]@);
            }
        }
        match ensure_rec(&mut self.children, &segs, 0, "/", lower_readdir, lower_mode) {
            Ok(made) => {
                proof {
                    assert(ensure_at(old(self)@, segments_of(path@), made@) == self@);
                }
                Ok(())
            },
            Err(p) => Err(VfsError::NotADirectory(p)),
        }
    }

    /// Removes the node at `path` entirely (used for upper-only deletions);
    /// nothing happens when a parent is missing or not a directory.
    pub fn detach(&mut self, path: &str)
        requires
            old(self).wf(),
        ensures
            final(self).wf(),
            final(self)@ == remove_at(old(self)@, segments_of(path@)),
    {
        let segs = segments(path);
        if segs.len() == 0 {
            return;
        }
        assert(strings_view(segs@).skip(0) =~= strings_view(segs@));
        detach_rec(&mut self.children, &segs, 0);
    }

    /// Empties the upper layer.
    pub fn clear(&mut self)
        ensures
            final(self).wf(),
            final(self)@ == Seq::<(Seq<char>, NodeView)>::empty(),
    {
        self.children = Vec::new();
        assert(self@ =~= Seq::<(Seq<char>, NodeView)>::empty());
    }

    /// An independent copy of the whole upper layer.
    pub fn deep_clone(&self) -> (t: Self)
        ensures
            t@ == self@,
    {
        let mut children: Vec<(String, UpperNode)> = Vec::new();
        copy_entries(&self.children, 0, &mut children);
        proof {
            lemma_children_view(self.children@);
            assert(children_view(self.children@).skip(0) =~= children_view(self.children@));
            assert(children_view(Seq::<(String, UpperNode)>::empty()) =~= Seq::<(Seq<char>, NodeView)>::empty());
            assert(Seq::<(Seq<char>, NodeView)>::empty() + children_view(self.children@) =~= children_view(self.children@));
        }
        OverlayTree { children }
    }

    /// Every node with its path, in pre-order (a directory before what it
    /// holds, siblings by name).
    pub fn walk(&self) -> (v: Vec<(String, &UpperNode)>)
        ensures
            walked_view(v@) == preorder(self@, "/"@),
    {
        let mut out: Vec<(String, &UpperNode)> = Vec::new();
        proof {
            assert(children_view(self.children@).skip(0) =~= self@);
            assert(walked_view(out@) =~= Seq::<(Seq<char>, NodeView)>::empty());
        }
        walk_from(&self.children, 0, "/", false, &mut out);
        assert(walked_view(out@) =~= preorder(self@, "/"@));
        out
    }

    /// Every node with its path, in post-order (what a directory holds
    /// before the directory).
    pub fn walk_post(&self) -> (v: Vec<(String, &UpperNode)>)
        ensures
            walked_view(v@) == postorder(self@, "/"@),
    {
        let mut out: Vec<(String, &UpperNode)> = Vec::new();
        proof {
            assert(children_view(self.children@).skip(0) =~= self@);
            assert(walked_view(out@) =~= Seq::<(Seq<char>, NodeView)>::empty());
        }
        walk_from(&self.children, 0, "/", true, &mut out);
        assert(walked_view(out@) =~= postorder(self@, "/"@));
        out
    }

    /// Appends to the file at `path` and touches its modification time. A
    /// directory there is `IsADirectory`; anything else that is not a file
    /// (nothing, a symlink, a whiteout, a parent that is not a directory,
    /// the root) is `NotFound`.
    pub fn append_file(&mut self, path: &str, content: &[u8]) -> (r: Result<(), VfsError>)
        requires
            old(self).wf(),
        ensures
            final(self).wf(),
            ({
                let segs = segments_of(path@);
                match locate(old(self)@, segs) {
                    LocateView::At(NodeView::File { content: c, mode, .. }) if segs.len() > 0 => {
                        &&& r is Ok
                        &&& exists|t: SystemTime| #[trigger] replace_at(old(self)@, segs, NodeView::File { content: c + content@, mode, mtime: t }) == final(self)@
                    },
                    LocateView::At(NodeView::Dir { .. }) if segs.len() > 0 => {
                        &&& r matches Err(VfsError::IsADirectory(p)) && p@ == path@
                        &&& final(self)@ == old(self)@
                    },
                    _ => {
                        &&& r matches Err(VfsError::NotFound(p)) && p@ == path@
                        &&& final(self)@ == old(self)@
                    },
                }
            }),
    {
        let segs = segments(path);
        if segs.len() == 0 {
            return Err(VfsError::NotFound(path.to_owned()));
        }
        let now = system_time_now();
        let e = Edit::Append { data: content, mtime: now };
        assert(strings_view(segs@).skip(0) =~= strings_view(segs@));
        match edit_rec(&mut self.children, &segs, 0, &e) {
            Ok(()) => Ok(()),
            Err(EditFault::WrongKind { is_dir: true }) => Err(VfsError::IsADirectory(path.to_owned())),
            Err(_) => Err(VfsError::NotFound(path.to_owned())),
        }
    }

    /// Sets the mode of the file or directory at `path`. The root is
    /// `InvalidPath("root")`, a missing node or parent `NotFound`, a parent
    /// that is a file or symlink `NotADirectory`, and a symlink or
    /// whiteout `InvalidPath` of the path.
    pub fn set_mode(&mut self, path: &str, mode: u32) -> (r: Result<(), VfsError>)
        requires
            old(self).wf(),
        ensures
            final(self).wf(),
            edit_outcome(old(self)@, final(self)@, path@, Edit::Mode(mode), r),
    {
        let e = Edit::Mode(mode);
        self.edit_node(path, &e)
    }

    /// Sets the modification time of the node at `path`; errors as for
    /// `set_mode`, except that a symlink takes the time too.
    pub fn set_mtime(&mut self, path: &str, mtime: SystemTime) -> (r: Result<(), VfsError>)
        requires
            old(self).wf(),
        ensures
            final(self).wf(),
            edit_outcome(old(self)@, final(self)@, path@, Edit::Mtime(mtime), r),
    {
        let e = Edit::Mtime(mtime);
        self.edit_node(path, &e)
    }

    fn edit_node(&mut self, path: &str, e: &Edit) -> (r: Result<(), VfsError>)
        requires
            old(self).wf(),
        ensures
            final(self).wf(),
            edit_outcome(old(self)@, final(self)@, path@, *e, r),
    {
        let segs = segments(path);
        if segs.len() == 0 {
            return Err(VfsError::InvalidPath(String::from_str("root")));
        }
        assert(strings_view(segs@).skip(0) =~= strings_view(segs@));
        match edit_rec(&mut self.children, &segs, 0, e) {
            Ok(()) => Ok(()),
            Err(EditFault::NotFound) => Err(VfsError::NotFound(path.to_owned())),
            Err(EditFault::NotDir) => Err(VfsError::NotADirectory(path.to_owned())),
            Err(EditFault::WrongKind { .. }) => Err(VfsError::InvalidPath(path.to_owned())),
        }
    }

    /// The entries of the directory at `path`, whiteouts included (the
    /// caller filters them); `None` when no directory is there.
    pub fn dir_entries(&self, path: &str) -> (r: Option<Vec<DirEntry>>)
        requires
            self.wf(),
        ensures
            match dir_at(self@, segments_of(path@)) {
                Some(cs) => r matches Some(v) && listing_view(v@) == kinds_of(cs),
                None => r is None,
            },
    {
        let segs = segments(path);
        if segs.len() == 0 {
            return Some(list_entries(&self.children));
        }
        match self.descend(path) {
            Descend::Found(UpperNode::Dir { children, .. }) => Some(list_entries(children)),
            _ => None,
        }
    }

    /// The names of the whiteout children of the directory at `path`
    /// (none when no directory is there).
    pub fn whiteout_children(&self, path: &str) -> (v: Vec<String>)
        requires
            self.wf(),
        ensures
            strings_view(v@) == match dir_at(self@, segments_of(path@)) {
                Some(cs) => whiteout_names(cs),
                None => Seq::<Seq<char>>::empty(),
            },
    {
        let segs = segments(path);
        let cs: &Vec<(String, UpperNode)> = if segs.len() == 0 {
            &self.children
        } else {
            match self.descend(path) {
                Descend::Found(UpperNode::Dir { children, .. }) => children,
                _ => {
                    let v: Vec<String> = Vec::new();
                    assert(strings_view(v@) =~= Seq::<Seq<char>>::empty());
                    return v;
                },
            }
        };
        proof {
            lemma_children_view(cs@);
        }
        let mut out: Vec<String> = Vec::new();
        let mut k: usize = 0;
        assert(strings_view(out@) =~= whiteout_names(children_view(cs@).take(0)));
        while k < cs.len()
            invariant
                k <= cs@.len(),
                children_view(cs@).len() == cs@.len(),
                forall|j: int| 0 <= j < cs@.len() ==> #[trigger] children_view(cs@)[j] == (cs@[j].0@, node_view(cs@[j].1)),
                strings_view(out@) == whiteout_names(children_view(cs@).take(k as int)),
            decreases cs.len() - k,
        {
            let ghost before = strings_view(out@);
            proof {
                let t = children_view(cs@).take(k + 1);
                assert(t.drop_last() =~= children_view(cs@).take(k as int));
                assert(t.last() == children_view(cs@)[k as int]);
            }
            if matches!(cs[k].1, UpperNode::Whiteout) {
                out.push(cs[k].0.clone());
                assert(strings_view(out@) =~= before.push(cs@[k as int].0@));
            }
            k = k + 1;
        }
        assert(children_view(cs@).take(cs@.len() as int) =~= children_view(cs@));
        out
    }

    /// Metadata of the content node at `path`: size in bytes for a file,
    /// 0 for a directory, the target's length for a symlink (whose mode is
    /// always `0o777`); `None` for a whiteout or no node.
    pub fn meta(&self, path: &str) -> (r: Option<Metadata>)
        requires
            self.wf(),
        ensures
            r == match descend_in(self@, segments_of(path@)) {
                DescendView::Found(n) => meta_view(n),
                _ => None,
            },
    {
        match self.descend(path) {
            Descend::Found(UpperNode::File { content, mode, mtime }) => Some(
                Metadata { node_type: NodeType::File, size: content.len() as u64, mode: *mode, mtime: *mtime, file_id: 0 },
            ),
            Descend::Found(UpperNode::Dir { mode, mtime, .. }) => Some(
                Metadata { node_type: NodeType::Directory, size: 0, mode: *mode, mtime: *mtime, file_id: 0 },
            ),
            Descend::Found(UpperNode::Symlink { target, mtime }) => Some(
                Metadata { node_type: NodeType::Symlink, size: target.as_str().len() as u64, mode: 0o777, mtime: *mtime, file_id: 0 },
            ),
            _ => None,
        }
    }
}

/// How `set_mode` and `set_mtime` answer: the root is refused as
/// `InvalidPath("root")`; otherwise the change is made where it applies,
/// and each refusal leaves the tree as it was.
pub open spec fn edit_outcome(
    before: Seq<(Seq<char>, NodeView)>,
    after: Seq<(Seq<char>, NodeView)>,
    path: Seq<char>,
    e: Edit,
    r: Result<(), VfsError>,
) -> bool {
    let segs = segments_of(path);
    if segs.len() == 0 {
        r matches Err(VfsError::InvalidPath(m)) && m@ == "root"@ && after == before
    } else {
        match locate(before, segs) {
            LocateView::NotFound => r matches Err(VfsError::NotFound(p)) && p@ == path && after == before,
            LocateView::NotDir => r matches Err(VfsError::NotADirectory(p)) && p@ == path && after == before,
            LocateView::At(n) => match edited(n, e) {
                Some(n2) => r is Ok && after == replace_at(before, segs, n2),
                None => r matches Err(VfsError::InvalidPath(p)) && p@ == path && after == before,
            },
        }
    }
}

/// The child list of the directory at `segs` (the root for no segment).
pub open spec fn dir_at(cs: Seq<(Seq<char>, NodeView)>, segs: Seq<Seq<char>>) -> Option<Seq<(Seq<char>, NodeView)>> {
    if segs.len() == 0 {
        Some(cs)
    } else {
        match descend_in(cs, segs) {
            DescendView::Found(NodeView::Dir { children, .. }) => Some(children),
            _ => None,
        }
    }
}

/// The names of the whiteouts in a child list, in order.
pub open spec fn whiteout_names(cs: Seq<(Seq<char>, NodeView)>) -> Seq<Seq<char>>
    decreases cs.len(),
{
    if cs.len() == 0 {
        seq![]
    } else {
        whiteout_names(cs.drop_last()) + if cs.last().1 is Whiteout {
            seq![cs.last().0]
        } else {
            seq![]
        }
    }
}

/// Names and kinds of a child list, in order.
pub open spec fn kinds_of(cs: Seq<(Seq<char>, NodeView)>) -> Seq<(Seq<char>, NodeType)> {
    cs.map_values(|e: (Seq<char>, NodeView)| (e.0, view_node_type(e.1)))
}

/// Names and kinds of a listing.
pub open spec fn listing_view(v: Seq<DirEntry>) -> Seq<(Seq<char>, NodeType)> {
    v.map_values(|e: DirEntry| (e.name@, e.node_type))
}

/// Metadata of a node, as `meta` reports it.
pub open spec fn meta_view(n: NodeView) -> Option<Metadata> {
    match n {
        NodeView::File { content, mode, mtime } => Some(
            Metadata { node_type: NodeType::File, size: content.len() as u64, mode, mtime, file_id: 0 },
        ),
        NodeView::Dir { mode, mtime, .. } => Some(
            Metadata { node_type: NodeType::Directory, size: 0, mode, mtime, file_id: 0 },
        ),
        NodeView::Symlink { target, mtime } => Some(
            Metadata { node_type: NodeType::Symlink, size: encode_utf8(target).len() as usize as u64, mode: 0o777, mtime, file_id: 0 },
        ),
        NodeView::Whiteout => None,
    }
}

fn list_entries(cs: &Vec<(String, UpperNode)>) -> (v: Vec<DirEntry>)
    ensures
        listing_view(v@) == kinds_of(children_view(cs@)),
{
    proof {
        lemma_children_view(cs@);
    }
    let mut out: Vec<DirEntry> = Vec::new();
    let mut i: usize = 0;
    while i < cs.len()
        invariant
            i <= cs@.len(),
            out@.len() == i,
            children_view(cs@).len() == cs@.len(),
            forall|j: int| 0 <= j < cs@.len() ==> #[trigger] children_view(cs@)[j] == (cs@[j].0@, node_view(cs@[j].1)),
            forall|j: int| 0 <= j < i ==> #[trigger] listing_view(out@)[j] == kinds_of(children_view(cs@))[j],
        decreases cs.len() - i,
    {
        let t = cs[i].1.node_type();
        let name = cs[i].0.clone();
        let ghost prev = out@;
        out.push(DirEntry { name, node_type: t });
        proof {
            assert forall|j: int| 0 <= j < i + 1 implies #[trigger] listing_view(out@)[j] == kinds_of(children_view(cs@))[j] by {
                assert(listing_view(out@)[j] == (out@[j].name@, out@[j].node_type));
                if j < i {
                    assert(out@[j] == prev[j]);
                    assert(listing_view(prev)[j] == (prev[j].name@, prev[j].node_type));
                } else {
                    assert(children_view(cs@)[j] == (cs@[j].0@, node_view(cs@[j].1)));
                }
            }
        }
        i = i + 1;
    }
    assert(listing_view(out@) =~= kinds_of(children_view(cs@)));
    out
}

// ── Laws of descent ────────────────────────────────────────────────

/// What descent finds below a node along the remaining segments `rest`.
pub open spec fn descend_node(n: NodeView, rest: Seq<Seq<char>>) -> DescendView {
    if rest.len() == 0 {
        DescendView::Found(n)
    } else {
        match n {
            NodeView::Whiteout => DescendView::Blocked,
            NodeView::Dir { children, .. } => descend_in(children, rest),
            _ => DescendView::NotDir,
        }
    }
}

/// Neither path is a prefix of the other.
pub open spec fn diverge(a: Seq<Seq<char>>, b: Seq<Seq<char>>) -> bool {
    !a.is_prefix_of(b) && !b.is_prefix_of(a)
}

proof fn lemma_descend_step(cs: Seq<(Seq<char>, NodeView)>, q: Seq<Seq<char>>)
    requires
        q.len() > 0,
    ensures
        descend_in(cs, q) == match lookup(cs, q[0]) {
            None => DescendView::Missing,
            Some(n) => descend_node(n, q.drop_first()),
        },
{
}

/// A child found by `lookup` in a well-formed list is well formed.
proof fn lemma_lookup_wf(cs: Seq<(Seq<char>, NodeView)>, name: Seq<char>)
    requires
        wf_children(cs),
        lookup(cs, name) is Some,
    ensures
        wf_node(lookup(cs, name)->0),
{
    let i = index_of_name(cs, name);
    assert(wf_node(cs[i].1));
}

/// After `replace_at`, descent along any extension of the path continues
/// inside the new node, and every path that diverges from it finds what
/// it found before.
pub proof fn lemma_descend_replace_at(cs: Seq<(Seq<char>, NodeView)>, segs: Seq<Seq<char>>, node: NodeView, q: Seq<Seq<char>>)
    requires
        wf_children(cs),
        segs.len() > 0,
        walk_to(cs, segs.drop_last()) is Dir,
    ensures
        segs.is_prefix_of(q) ==> descend_in(replace_at(cs, segs, node), q) == descend_node(node, q.skip(segs.len() as int)),
        diverge(segs, q) ==> descend_in(replace_at(cs, segs, node), q) == descend_in(cs, q),
    decreases segs.len(),
{
    let s0 = segs[0];
    if segs.len() == 1 {
        lemma_set_child(cs, s0, node);
        let new = set_child(cs, s0, node);
        if segs.is_prefix_of(q) {
            assert(q[0] == s0);
            lemma_descend_step(new, q);
            assert(q.drop_first() =~= q.skip(1));
        }
        if diverge(segs, q) {
            if q.len() > 0 {
                if q[0] == s0 {
                    assert(segs.is_prefix_of(q));
                }
                lemma_descend_step(new, q);
                lemma_descend_step(cs, q);
            }
        }
    } else {
        assert(segs.drop_last()[0] == s0);
        assert(segs.drop_last().drop_first() =~= segs.drop_first().drop_last());
        let child = lookup(cs, s0)->0;
        lemma_lookup_wf(cs, s0);
        let ch = child->Dir_children;
        let rest = segs.drop_first();
        let inner = NodeView::Dir { children: replace_at(ch, rest, node), mode: child->Dir_mode, mtime: child->Dir_mtime };
        let new = set_child(cs, s0, inner);
        assert(replace_at(cs, segs, node) == new);
        lemma_set_child(cs, s0, inner);
        if segs.is_prefix_of(q) {
            assert(q[0] == s0);
            assert(rest.is_prefix_of(q.drop_first())) by {
                assert forall|i: int| 0 <= i < rest.len() implies rest[i] == q.drop_first()[i] by {
                    assert(rest[i] == segs[i + 1]);
                }
            }
            lemma_descend_replace_at(ch, rest, node, q.drop_first());
            lemma_descend_step(new, q);
            assert(q.drop_first().skip(rest.len() as int) =~= q.skip(segs.len() as int));
        }
        if diverge(segs, q) {
            if q.len() > 0 {
                lemma_descend_step(new, q);
                lemma_descend_step(cs, q);
                if q[0] == s0 {
                    assert(q.len() > 1) by {
                        if q.len() == 1 {
                            assert(q.is_prefix_of(segs));
                        }
                    }
                    assert(diverge(rest, q.drop_first())) by {
                        if rest.is_prefix_of(q.drop_first()) {
                            assert forall|i: int| 0 <= i < segs.len() implies segs[i] == q[i] by {
                                if i > 0 {
                                    assert(segs[i] == rest[i - 1]);
                                }
                            }
                        }
                        if q.drop_first().is_prefix_of(rest) {
                            assert forall|i: int| 0 <= i < q.len() implies q[i] == segs[i] by {
                                if i > 0 {
                                    assert(q[i] == q.drop_first()[i - 1]);
                                }
                            }
                        }
                    }
                    lemma_descend_replace_at(ch, rest, node, q.drop_first());
                }
            }
        }
    }
}

/// After `remove_at`, nothing is found at or below the path, and every
/// path that diverges from it finds what it found before.
pub proof fn lemma_descend_remove_at(cs: Seq<(Seq<char>, NodeView)>, segs: Seq<Seq<char>>, q: Seq<Seq<char>>)
    requires
        wf_children(cs),
        segs.len() > 0,
        walk_to(cs, segs.drop_last()) is Dir,
    ensures
        segs.is_prefix_of(q) ==> descend_in(remove_at(cs, segs), q) == DescendView::Missing,
        diverge(segs, q) ==> descend_in(remove_at(cs, segs), q) == descend_in(cs, q),
    decreases segs.len(),
{
    let s0 = segs[0];
    if segs.len() == 1 {
        lemma_remove_child(cs, s0);
        let new = remove_child(cs, s0);
        if q.len() > 0 {
            lemma_descend_step(new, q);
            lemma_descend_step(cs, q);
            if diverge(segs, q) && q[0] == s0 {
                assert(segs.is_prefix_of(q));
            }
        }
    } else {
        assert(segs.drop_last()[0] == s0);
        assert(segs.drop_last().drop_first() =~= segs.drop_first().drop_last());
        let child = lookup(cs, s0)->0;
        lemma_lookup_wf(cs, s0);
        let ch = child->Dir_children;
        let rest = segs.drop_first();
        let inner = NodeView::Dir { children: remove_at(ch, rest), mode: child->Dir_mode, mtime: child->Dir_mtime };
        let new = set_child(cs, s0, inner);
        assert(remove_at(cs, segs) == new);
        lemma_set_child(cs, s0, inner);
        if segs.is_prefix_of(q) {
            assert(q[0] == s0);
            assert(rest.is_prefix_of(q.drop_first())) by {
                assert forall|i: int| 0 <= i < rest.len() implies rest[i] == q.drop_first()[i] by {
                    assert(rest[i] == segs[i + 1]);
                }
            }
            lemma_descend_remove_at(ch, rest, q.drop_first());
            lemma_descend_step(new, q);
        }
        if diverge(segs, q) {
            if q.len() > 0 {
                lemma_descend_step(new, q);
                lemma_descend_step(cs, q);
                if q[0] == s0 {
                    assert(q.len() > 1) by {
                        if q.len() == 1 {
                            assert(q.is_prefix_of(segs));
                        }
                    }
                    assert(diverge(rest, q.drop_first())) by {
                        if rest.is_prefix_of(q.drop_first()) {
                            assert forall|i: int| 0 <= i < segs.len() implies segs[i] == q[i] by {
                                if i > 0 {
                                    assert(segs[i] == rest[i - 1]);
                                }
                            }
                        }
                        if q.drop_first().is_prefix_of(rest) {
                            assert forall|i: int| 0 <= i < q.len() implies q[i] == segs[i] by {
                                if i > 0 {
                                    assert(q[i] == q.drop_first()[i - 1]);
                                }
                            }
                        }
                    }
                    lemma_descend_remove_at(ch, rest, q.drop_first());
                }
            }
        }
    }
}

// ── Creating directories ───────────────────────────────────────────

/// Directories along `segs`: an existing directory is kept and entered;
/// an absent or whiteout component becomes the directory `made[k]` (and is
/// entered); a file or symlink component stops the walk.
pub open spec fn ensure_at(cs: Seq<(Seq<char>, NodeView)>, segs: Seq<Seq<char>>, made: Seq<NodeView>) -> Seq<(Seq<char>, NodeView)>
    decreases segs.len(),
{
    if segs.len() == 0 {
        cs
    } else {
        let rest = segs.drop_first();
        let more = made.drop_first();
        match lookup(cs, segs[0]) {
            Some(NodeView::Dir { children, mode, mtime }) => set_child(
                cs,
                segs[0],
                NodeView::Dir { children: ensure_at(children, rest, more), mode, mtime },
            ),
            Some(NodeView::File { .. }) => cs,
            Some(NodeView::Symlink { .. }) => cs,
            _ => match made[0] {
                NodeView::Dir { children, mode, mtime } => set_child(
                    cs,
                    segs[0],
                    NodeView::Dir { children: ensure_at(children, rest, more), mode, mtime },
                ),
                _ => cs,
            },
        }
    }
}

/// Depth of the first file or symlink met while walking `segs` through
/// existing directories (a missing or whiteout component ends the search:
/// everything below it is created fresh).
pub open spec fn ensure_fault(cs: Seq<(Seq<char>, NodeView)>, segs: Seq<Seq<char>>) -> Option<nat>
    decreases segs.len(),
{
    if segs.len() == 0 {
        None
    } else {
        match lookup(cs, segs[0]) {
            Some(NodeView::Dir { children, .. }) => match ensure_fault(children, segs.drop_first()) {
                Some(k) => Some(k + 1),
                None => None,
            },
            Some(NodeView::File { .. }) => Some(0),
            Some(NodeView::Symlink { .. }) => Some(0),
            _ => None,
        }
    }
}

/// The existing part of `prefix` is all directories (no whiteout, file or
/// symlink on it).
pub open spec fn prefix_clear(cs: Seq<(Seq<char>, NodeView)>, prefix: Seq<Seq<char>>) -> bool
    decreases prefix.len(),
{
    if prefix.len() == 0 {
        true
    } else {
        match lookup(cs, prefix[0]) {
            None => true,
            Some(NodeView::Dir { children, .. }) => prefix_clear(children, prefix.drop_first()),
            _ => false,
        }
    }
}

/// Setting a name twice keeps the second value.
pub proof fn lemma_set_child_twice(cs: Seq<(Seq<char>, NodeView)>, name: Seq<char>, a: NodeView, b: NodeView)
    requires
        sorted_names(cs),
    ensures
        set_child(set_child(cs, name, a), name, b) == set_child(cs, name, b),
{
    if has_name(cs, name) {
        let i = index_of_name(cs, name);
        lemma_set_child_existing(cs, i, a);
        lemma_set_child_existing(cs, i, b);
        let c1 = cs.update(i, (name, a));
        assert(sorted_names(c1)) by {
            assert forall|x: int, y: int| 0 <= x < y < c1.len() implies chars_lt(#[trigger] c1[x].0, #[trigger] c1[y].0) by {
                assert(c1[x].0 == cs[x].0 && c1[y].0 == cs[y].0);
            }
        }
        lemma_set_child_existing(c1, i, b);
        assert(c1.update(i, (name, b)) =~= cs.update(i, (name, b)));
    } else {
        let k = insertion_point(cs, name);
        lemma_set_child_insert(cs, k, name, a);
        lemma_set_child_insert(cs, k, name, b);
        lemma_set_child(cs, name, a);
        let c1 = cs.insert(k, (name, a));
        lemma_set_child_existing(c1, k, b);
        assert(c1.update(k, (name, b)) =~= cs.insert(k, (name, b)));
    }
}

/// The probe answered `Some(m)` or `None` for a path spelled `path`, and
/// `mode` is `m`, or `0o755` for `None`.
pub open spec fn probed_mode<F: Fn(&str) -> Option<u32>>(f: F, path: Seq<char>, mode: u32) -> bool {
    exists|p: &str, r: Option<u32>|
        p@ == path && #[trigger] call_ensures(f, (p,), r) && mode == match r {
            Some(m) => m,
            None => 0o755u32,
        }
}

/// The directories `put_whiteout` creates while walking `segs` below the
/// directory at `prefix`: every missing level gets an empty directory
/// whose mode the probe gave for that level's path.
pub open spec fn scaffold_ok<F: Fn(&str) -> Option<u32>>(
    cs: Seq<(Seq<char>, NodeView)>,
    segs: Seq<Seq<char>>,
    made: Seq<NodeView>,
    f: F,
    prefix: Seq<Seq<char>>,
) -> bool
    decreases segs.len(),
{
    if segs.len() == 0 {
        true
    } else {
        let here = prefix.push(segs[0]);
        match lookup(cs, segs[0]) {
            Some(NodeView::Dir { children, .. }) => scaffold_ok(children, segs.drop_first(), made.drop_first(), f, here),
            None => {
                &&& made.len() > 0
                &&& made[0] is Dir
                &&& made[0]->Dir_children == Seq::<(Seq<char>, NodeView)>::empty()
                &&& probed_mode(f, absolute_of(here), made[0]->Dir_mode)
                &&& scaffold_ok(Seq::<(Seq<char>, NodeView)>::empty(), segs.drop_first(), made.drop_first(), f, here)
            },
            _ => true,
        }
    }
}

/// Whiteout children for `names`, inserted one by one (a repeated name
/// is stored once).
pub open spec fn whiteouts_of(names: Seq<Seq<char>>) -> Seq<(Seq<char>, NodeView)>
    decreases names.len(),
{
    if names.len() == 0 {
        seq![]
    } else {
        set_child(whiteouts_of(names.drop_last()), names.last(), NodeView::Whiteout)
    }
}

/// The names a directory listing gave (none when there was no listing).
pub open spec fn listing_names(r: Option<Vec<String>>) -> Seq<Seq<char>> {
    match r {
        Some(v) => strings_view(v@),
        None => seq![],
    }
}

/// The listing probe answered for a path spelled `path`, and `children`
/// are whiteouts for the names it gave.
pub open spec fn probed_listing<G: Fn(&str) -> Option<Vec<String>>>(
    g: G,
    path: Seq<char>,
    children: Seq<(Seq<char>, NodeView)>,
) -> bool {
    exists|p: &str, r: Option<Vec<String>>|
        p@ == path && #[trigger] call_ensures(g, (p,), r) && children == whiteouts_of(listing_names(r))
}

/// The directories `ensure_dirs` creates while walking `segs` below the
/// directory at `prefix`: a missing level gets an empty directory, a
/// whiteout level a directory whose children are whiteouts for the lower
/// layer's listing of that path; both take the mode the probe gives.
pub open spec fn resurrect_ok<G: Fn(&str) -> Option<Vec<String>>, F: Fn(&str) -> Option<u32>>(
    cs: Seq<(Seq<char>, NodeView)>,
    segs: Seq<Seq<char>>,
    made: Seq<NodeView>,
    g: G,
    f: F,
    prefix: Seq<Seq<char>>,
) -> bool
    decreases segs.len(),
{
    if segs.len() == 0 {
        true
    } else {
        let here = prefix.push(segs[0]);
        match lookup(cs, segs[0]) {
            Some(NodeView::Dir { children, .. }) => resurrect_ok(children, segs.drop_first(), made.drop_first(), g, f, here),
            Some(NodeView::File { .. }) => true,
            Some(NodeView::Symlink { .. }) => true,
            None => {
                &&& made.len() > 0
                &&& made[0] is Dir
                &&& made[0]->Dir_children == Seq::<(Seq<char>, NodeView)>::empty()
                &&& probed_mode(f, absolute_of(here), made[0]->Dir_mode)
                &&& resurrect_ok(made[0]->Dir_children, segs.drop_first(), made.drop_first(), g, f, here)
            },
            Some(NodeView::Whiteout) => {
                &&& made.len() > 0
                &&& made[0] is Dir
                &&& probed_listing(g, absolute_of(here), made[0]->Dir_children)
                &&& probed_mode(f, absolute_of(here), made[0]->Dir_mode)
                &&& resurrect_ok(made[0]->Dir_children, segs.drop_first(), made.drop_first(), g, f, here)
            },
        }
    }
}

/// Whiteout children are sorted, well formed and all whiteouts.
proof fn lemma_whiteouts_of(names: Seq<Seq<char>>)
    ensures
        wf_children(whiteouts_of(names)),
        forall|i: int| 0 <= i < whiteouts_of(names).len() ==> (#[trigger] whiteouts_of(names)[i]).1 is Whiteout,
    decreases names.len(),
{
    if names.len() > 0 {
        let prev = whiteouts_of(names.drop_last());
        lemma_whiteouts_of(names.drop_last());
        lemma_set_child(prev, names.last(), NodeView::Whiteout);
        let r = whiteouts_of(names);
        assert forall|i: int| 0 <= i < r.len() implies (#[trigger] r[i]).1 is Whiteout by {
            if r[i].0 == names.last() {
                lemma_lookup_at(r, i);
            } else {
                lemma_lookup_at(r, i);
                assert(lookup(prev, r[i].0) == Some(r[i].1));
                let j = index_of_name(prev, r[i].0);
                assert(prev[j].1 is Whiteout);
            }
        }
    }
}

/// Descent below a list of whiteouts never meets a file or symlink.
proof fn lemma_ensure_fault_whiteouts(cs: Seq<(Seq<char>, NodeView)>, segs: Seq<Seq<char>>)
    requires
        forall|i: int| 0 <= i < cs.len() ==> (#[trigger] cs[i]).1 is Whiteout,
    ensures
        ensure_fault(cs, segs) is None,
{
    if segs.len() > 0 {
        if has_name(cs, segs[0]) {
            let j = index_of_name(cs, segs[0]);
            assert(cs[j].1 is Whiteout);
        }
    }
}

/// Builds whiteout children for `names`.
fn whiteout_children(names: &Vec<String>) -> (cs: Vec<(String, UpperNode)>)
    ensures
        children_view(cs@) == whiteouts_of(strings_view(names@)),
{
    let mut cs: Vec<(String, UpperNode)> = Vec::new();
    let mut i: usize = 0;
    proof {
        assert(children_view(cs@) =~= Seq::<(Seq<char>, NodeView)>::empty());
        assert(strings_view(names@).take(0) =~= Seq::<Seq<char>>::empty());
    }
    while i < names.len()
        invariant
            i <= names@.len(),
            children_view(cs@) == whiteouts_of(strings_view(names@).take(i as int)),
        decreases names.len() - i,
    {
        proof {
            lemma_whiteouts_of(strings_view(names@).take(i as int));
            let t = strings_view(names@).take(i + 1);
            assert(t.drop_last() =~= strings_view(names@).take(i as int));
            assert(t.last() == names@[i as int]@);
        }
        put_child(&mut cs, names[i].clone(), UpperNode::Whiteout);
        i = i + 1;
    }
    proof {
        assert(strings_view(names@).take(names@.len() as int) =~= strings_view(names@));
    }
    cs
}

fn ensure_rec<G: Fn(&str) -> Option<Vec<String>>, F: Fn(&str) -> Option<u32>>(
    cs: &mut Vec<(String, UpperNode)>,
    segs: &Vec<String>,
    i: usize,
    parent: &str,
    lower_readdir: &G,
    lower_mode: &F,
) -> (r: Result<Ghost<Seq<NodeView>>, String>)
    requires
        i <= segs@.len(),
        wf_children(children_view(old(cs)@)),
        forall|p: &str| lower_readdir.requires((p,)),
        forall|p: &str| lower_mode.requires((p,)),
        forall|k: int| 0 <= k < segs@.len() ==> (#[trigger] segs@[k])@.len() > 0,
        slash_free(strings_view(segs@)),
        parent@ == absolute_of(strings_view(segs@).take(i as int)),
    ensures
        wf_children(children_view(final(cs)@)),
        ({
            let rest = strings_view(segs@).skip(i as int);
            let v = children_view(old(cs)@);
            match ensure_fault(v, rest) {
                Some(k) => {
                    &&& r matches Err(p) && p@ == absolute_of(strings_view(segs@).take(i + k + 1))
                    &&& children_view(final(cs)@) == v
                },
                None => {
                    r matches Ok(made) && children_view(final(cs)@) == ensure_at(v, rest, made@)
                        && resurrect_ok(v, rest, made@, *lower_readdir, *lower_mode, strings_view(segs@).take(i as int))
                },
            }
        }),
    decreases segs@.len() - i,
{
    let ghost v = children_view(cs@);
    let ghost rest = strings_view(segs@).skip(i as int);
    if i == segs.len() {
        assert(rest.len() == 0);
        return Ok(Ghost(Seq::<NodeView>::empty()));
    }
    let ghost s0 = rest[0];
    proof {
        lemma_children_view(cs@);
        assert(s0 == segs@[i as int]@);
        assert(rest.drop_first() =~= strings_view(segs@).skip(i + 1));
    }
    let cur = crate::vfs::paths::vfs_join(parent, segs[i].as_str());
    let ghost prefix = strings_view(segs@).take(i as int);
    let ghost here = strings_view(segs@).take(i + 1);
    proof {
        if i > 0 {
            let last = prefix.last();
            assert(last == segs@[i - 1]@);
            assert(last.len() > 0);
            assert(last[last.len() - 1] != '/');
        }
        lemma_join_absolute(prefix, s0);
        assert(prefix.push(s0) =~= here);
    }
    let name = chars_of(segs[i].as_str());
    let found = find_child(cs, &name);
    let mut ch: Vec<(String, UpperNode)> = Vec::new();
    let ghost mut listed = Seq::<Seq<char>>::empty();
    proof {
        assert(children_view(ch@) =~= whiteouts_of(listed));
    }
    if let Some(idx) = found {
        proof {
            lemma_lookup_at(v, idx as int);
        }
        if matches!(cs[idx].1, UpperNode::File { .. }) || matches!(cs[idx].1, UpperNode::Symlink { .. }) {
            return Err(cur);
        }
        if matches!(cs[idx].1, UpperNode::Dir { .. }) {
            let (cname, child) = cs.remove(idx);
            match child {
                UpperNode::Dir { children, mode, mtime } => {
                    let mut sub_cs = children;
                    proof {
                        assert(wf_node(v[idx as int].1));
                    }
                    let sub = ensure_rec(&mut sub_cs, segs, i + 1, cur.as_str(), lower_readdir, lower_mode);
                    let ghost new_dir = NodeView::Dir { children: children_view(sub_cs@), mode, mtime };
                    cs.insert(idx, (cname, UpperNode::Dir { children: sub_cs, mode, mtime }));
                    proof {
                        lemma_children_view(cs@);
                        assert(children_view(cs@) =~= v.update(idx as int, (s0, new_dir)));
                        lemma_set_child_existing(v, idx as int, new_dir);
                        lemma_set_child(v, s0, new_dir);
                    }
                    match sub {
                        Ok(m) => {
                            let ghost made = seq![NodeView::Dir { children: seq![], mode: 0, mtime: arbitrary() }] + m@;
                            proof {
                                assert(made.drop_first() =~= m@);
                            }
                            return Ok(Ghost(made));
                        },
                        Err(p) => {
                            proof {
                                assert(new_dir == v[idx as int].1);
                                assert(children_view(cs@) =~= v);
                            }
                            return Err(p);
                        },
                    }
                },
                _ => {
                    proof {
                        assert(false);
                    }
                    return Err(cur);
                },
            }
        }
        let answer = lower_readdir(cur.as_str());
        let names = match answer {
            Some(entries) => entries,
            None => Vec::new(),
        };
        proof {
            assert(listing_names(answer) =~= strings_view(names@));
        }
        ch = whiteout_children(&names);
        proof {
            listed = strings_view(names@);
            assert(probed_listing(*lower_readdir, absolute_of(here), children_view(ch@)));
        }
    }
    let mode_answer = lower_mode(cur.as_str());
    let mode: u32 = match mode_answer {
        Some(m) => m,
        None => 0o755,
    };
    proof {
        assert(probed_mode(*lower_mode, absolute_of(here), mode));
        lemma_whiteouts_of(listed);
        lemma_ensure_fault_whiteouts(children_view(ch@), rest.drop_first());
    }
    let mtime = system_time_now();
    let ghost fresh = NodeView::Dir { children: children_view(ch@), mode, mtime };
    let sub = ensure_rec(&mut ch, segs, i + 1, cur.as_str(), lower_readdir, lower_mode);
    let m = match sub {
        Ok(m) => m,
        Err(p) => {
            proof {
                assert(false);
            }
            return Err(p);
        },
    };
    let ghost new_dir = NodeView::Dir { children: children_view(ch@), mode, mtime };
    proof {
        lemma_set_child(v, s0, new_dir);
    }
    put_child(cs, segs[i].clone(), UpperNode::Dir { children: ch, mode, mtime });
    let ghost made = seq![fresh] + m@;
    proof {
        assert(made.drop_first() =~= m@);
        assert(ensure_at(v, rest, made) == set_child(v, s0, new_dir));
    }
    Ok(Ghost(made))
}

/// A sequence of `n` fresh empty directories (placeholders for levels
/// that create nothing).
pub open spec fn placeholder_dirs(n: nat) -> Seq<NodeView> {
    Seq::new(n, |k: int| NodeView::Dir { children: seq![], mode: 0, mtime: arbitrary() })
}

fn put_whiteout_rec<F: Fn(&str) -> Option<u32>>(
    cs: &mut Vec<(String, UpperNode)>,
    segs: &Vec<String>,
    i: usize,
    parent: &str,
    lower_mode: &F,
) -> (made: Ghost<Seq<NodeView>>)
    requires
        i < segs@.len(),
        wf_children(children_view(old(cs)@)),
        forall|p: &str| lower_mode.requires((p,)),
        forall|k: int| 0 <= k < segs@.len() ==> (#[trigger] segs@[k])@.len() > 0,
        slash_free(strings_view(segs@)),
        parent@ == absolute_of(strings_view(segs@).take(i as int)),
    ensures
        wf_children(children_view(final(cs)@)),
        made@.len() == segs@.len() - i - 1,
        forall|k: int| 0 <= k < made@.len() ==> #[trigger] made@[k] is Dir && made@[k]->Dir_children.len() == 0,
        ({
            let rest = strings_view(segs@).skip(i as int);
            if prefix_clear(children_view(old(cs)@), rest.drop_last()) {
                &&& children_view(final(cs)@) == replace_at(
                    ensure_at(children_view(old(cs)@), rest.drop_last(), made@),
                    rest,
                    NodeView::Whiteout,
                )
                &&& scaffold_ok(children_view(old(cs)@), rest.drop_last(), made@, *lower_mode, strings_view(segs@).take(i as int))
            } else {
                children_view(final(cs)@) == children_view(old(cs)@)
            }
        }),
    decreases segs@.len() - i,
{
    let ghost v = children_view(cs@);
    let ghost rest = strings_view(segs@).skip(i as int);
    let ghost s0 = rest[0];
    proof {
        lemma_children_view(cs@);
        assert(s0 == segs@[i as int]@);
    }
    if i == segs.len() - 1 {
        proof {
            assert(rest.drop_last() =~= Seq::<Seq<char>>::empty());
            lemma_set_child(v, s0, NodeView::Whiteout);
        }
        put_child(cs, segs[i].clone(), UpperNode::Whiteout);
        let ghost made = Seq::<NodeView>::empty();
        assert(ensure_at(v, rest.drop_last(), made) == v);
        return Ghost(made);
    }
    proof {
        assert(rest.drop_last()[0] == s0);
        assert(rest.drop_last().drop_first() =~= strings_view(segs@).skip(i + 1).drop_last());
        assert(rest.drop_first() =~= strings_view(segs@).skip(i + 1));
    }
    let cur = crate::vfs::paths::vfs_join(parent, segs[i].as_str());
    let ghost prefix = strings_view(segs@).take(i as int);
    let ghost here = strings_view(segs@).take(i + 1);
    proof {
        if i > 0 {
            let last = prefix.last();
            assert(last == segs@[i - 1]@);
            assert(last.len() > 0);
            assert(last[last.len() - 1] != '/');
        }
        lemma_join_absolute(prefix, s0);
        assert(prefix.push(s0) =~= here);
    }
    let name = chars_of(segs[i].as_str());
    match find_child(cs, &name) {
        Some(idx) => {
            proof {
                lemma_lookup_at(v, idx as int);
            }
            if !matches!(cs[idx].1, UpperNode::Dir { .. }) {
                return Ghost(placeholder_dirs((segs@.len() - i - 1) as nat));
            }
            let (cname, child) = cs.remove(idx);
            match child {
                UpperNode::Dir { children, mode, mtime } => {
                    let ghost ch0 = children_view(children@);
                    let mut ch = children;
                    proof {
                        assert(wf_node(v[idx as int].1));
                    }
                    let sub = put_whiteout_rec(&mut ch, segs, i + 1, cur.as_str(), lower_mode);
                    let ghost new_dir = NodeView::Dir { children: children_view(ch@), mode, mtime };
                    cs.insert(idx, (cname, UpperNode::Dir { children: ch, mode, mtime }));
                    let ghost made = seq![NodeView::Dir { children: seq![], mode: 0, mtime: arbitrary() }] + sub@;
                    proof {
                        lemma_children_view(cs@);
                        assert(children_view(cs@) =~= v.update(idx as int, (s0, new_dir)));
                        lemma_set_child_existing(v, idx as int, new_dir);
                        lemma_set_child(v, s0, new_dir);
                        assert(made.drop_first() =~= sub@);
                        assert(rest.drop_last().drop_first() =~= strings_view(segs@).skip(i + 1).drop_last());
                        if prefix_clear(v, rest.drop_last()) {
                            let mid_dir = NodeView::Dir { children: ensure_at(ch0, rest.drop_first().drop_last(), sub@), mode, mtime };
                            let mid = set_child(v, s0, mid_dir);
                            assert(ensure_at(v, rest.drop_last(), made) == mid);
                            lemma_set_child(v, s0, mid_dir);
                            lemma_set_child_twice(v, s0, mid_dir, new_dir);
                        } else {
                            assert(new_dir == v[idx as int].1);
                            assert(children_view(cs@) =~= v);
                        }
                    }
                    Ghost(made)
                },
                _ => {
                    proof {
                        assert(false);
                    }
                    Ghost(placeholder_dirs((segs@.len() - i - 1) as nat))
                },
            }
        },
        None => {
            let answer = lower_mode(cur.as_str());
            let mode = match answer {
                Some(m) => m,
                None => 0o755,
            };
            proof {
                assert(probed_mode(*lower_mode, absolute_of(here), mode));
            }
            let mtime = system_time_now();
            let mut ch: Vec<(String, UpperNode)> = Vec::new();
            proof {
                lemma_children_view(ch@);
                assert(children_view(ch@) =~= Seq::<(Seq<char>, NodeView)>::empty());
            }
            let sub = put_whiteout_rec(&mut ch, segs, i + 1, cur.as_str(), lower_mode);
            let ghost new_dir = NodeView::Dir { children: children_view(ch@), mode, mtime };
            let ghost fresh = NodeView::Dir { children: seq![], mode, mtime };
            proof {
                lemma_set_child(v, s0, new_dir);
            }
            put_child(cs, segs[i].clone(), UpperNode::Dir { children: ch, mode, mtime });
            let ghost made = seq![fresh] + sub@;
            proof {
                assert(made.drop_first() =~= sub@);
                assert(prefix_clear(Seq::<(Seq<char>, NodeView)>::empty(), rest.drop_first().drop_last())) by {
                    if rest.drop_first().drop_last().len() > 0 {
                        assert(!has_name(Seq::<(Seq<char>, NodeView)>::empty(), rest.drop_first().drop_last()[0]));
                    }
                }
                let mid_dir = NodeView::Dir { children: ensure_at(seq![], rest.drop_first().drop_last(), sub@), mode, mtime };
                let mid = set_child(v, s0, mid_dir);
                assert(ensure_at(v, rest.drop_last(), made) == mid);
                lemma_set_child(v, s0, mid_dir);
                lemma_set_child_twice(v, s0, mid_dir, new_dir);
            }
            Ghost(made)
        },
    }
}

// ── Laws of directory creation and deletion ───────────────────────

/// Scaffolding along a clear prefix keeps the tree well formed and makes
/// the whole prefix a walk through directories.
pub proof fn lemma_scaffold_walk<F: Fn(&str) -> Option<u32>>(
    cs: Seq<(Seq<char>, NodeView)>,
    segs: Seq<Seq<char>>,
    made: Seq<NodeView>,
    f: F,
    prefix: Seq<Seq<char>>,
)
    requires
        wf_children(cs),
        prefix_clear(cs, segs),
        scaffold_ok(cs, segs, made, f, prefix),
    ensures
        wf_children(ensure_at(cs, segs, made)),
        walk_to(ensure_at(cs, segs, made), segs) is Dir,
    decreases segs.len(),
{
    if segs.len() > 0 {
        let s0 = segs[0];
        let rest = segs.drop_first();
        let more = made.drop_first();
        let here = prefix.push(s0);
        match lookup(cs, s0) {
            Some(NodeView::Dir { children, mode, mtime }) => {
                lemma_lookup_wf(cs, s0);
                lemma_scaffold_walk(children, rest, more, f, here);
                let d = NodeView::Dir { children: ensure_at(children, rest, more), mode, mtime };
                lemma_set_child(cs, s0, d);
            },
            None => {
                let e = Seq::<(Seq<char>, NodeView)>::empty();
                lemma_scaffold_walk(e, rest, more, f, here);
                let d = NodeView::Dir { children: ensure_at(e, rest, more), mode: made[0]->Dir_mode, mtime: made[0]->Dir_mtime };
                lemma_set_child(cs, s0, d);
            },
            _ => {},
        }
    }
}

/// After `put_whiteout` at a path whose ancestors are clear, descent
/// finds the whiteout at the path and is blocked everywhere below it.
pub proof fn lemma_put_whiteout_blocks<F: Fn(&str) -> Option<u32>>(
    cs: Seq<(Seq<char>, NodeView)>,
    segs: Seq<Seq<char>>,
    made: Seq<NodeView>,
    f: F,
    q: Seq<Seq<char>>,
)
    requires
        wf_children(cs),
        segs.len() > 0,
        prefix_clear(cs, segs.drop_last()),
        scaffold_ok(cs, segs.drop_last(), made, f, Seq::<Seq<char>>::empty()),
        segs.is_prefix_of(q),
    ensures
        descend_in(replace_at(ensure_at(cs, segs.drop_last(), made), segs, NodeView::Whiteout), q) == if q.len() == segs.len() {
            DescendView::Found(NodeView::Whiteout)
        } else {
            DescendView::Blocked
        },
{
    let pre = segs.drop_last();
    lemma_scaffold_walk(cs, pre, made, f, Seq::<Seq<char>>::empty());
    lemma_descend_replace_at(ensure_at(cs, pre, made), segs, NodeView::Whiteout, q);
}

/// After `ensure_dirs` succeeds, every non-empty prefix of the path is a
/// directory.
pub proof fn lemma_ensure_dirs_prefixes<G: Fn(&str) -> Option<Vec<String>>, F: Fn(&str) -> Option<u32>>(
    cs: Seq<(Seq<char>, NodeView)>,
    segs: Seq<Seq<char>>,
    made: Seq<NodeView>,
    g: G,
    f: F,
    prefix: Seq<Seq<char>>,
    k: int,
)
    requires
        wf_children(cs),
        ensure_fault(cs, segs) is None,
        resurrect_ok(cs, segs, made, g, f, prefix),
        1 <= k <= segs.len(),
    ensures
        descend_in(ensure_at(cs, segs, made), segs.take(k)) matches DescendView::Found(NodeView::Dir { .. }),
    decreases segs.len(),
{
    let s0 = segs[0];
    let rest = segs.drop_first();
    let more = made.drop_first();
    let here = prefix.push(s0);
    let inner = match lookup(cs, s0) {
        Some(NodeView::Dir { children, .. }) => {
            lemma_lookup_wf(cs, s0);
            children
        },
        None => {
            lemma_ensure_fault_whiteouts(Seq::<(Seq<char>, NodeView)>::empty(), rest);
            Seq::<(Seq<char>, NodeView)>::empty()
        },
        _ => {
            let ch = made[0]->Dir_children;
            let (p, r) = choose|p: &str, r: Option<Vec<String>>|
                p@ == absolute_of(here) && #[trigger] call_ensures(g, (p,), r) && ch == whiteouts_of(listing_names(r));
            lemma_whiteouts_of(listing_names(r));
            lemma_ensure_fault_whiteouts(ch, rest);
            ch
        },
    };
    let (mode, mtime) = match lookup(cs, s0) {
        Some(NodeView::Dir { mode, mtime, .. }) => (mode, mtime),
        _ => (made[0]->Dir_mode, made[0]->Dir_mtime),
    };
    let d = NodeView::Dir { children: ensure_at(inner, rest, more), mode, mtime };
    assert(ensure_at(cs, segs, made) == set_child(cs, s0, d));
    lemma_set_child(cs, s0, d);
    let t = segs.take(k);
    assert(t[0] == s0);
    lemma_descend_step(set_child(cs, s0, d), t);
    if k > 1 {
        assert(t.drop_first() =~= rest.take(k - 1));
        lemma_ensure_dirs_prefixes(inner, rest, more, g, f, here, k - 1);
    }
}

/// After an `attach` that was not refused, descent to the path finds the
/// attached node, and every path that diverges from it finds what it
/// found before.
pub proof fn lemma_attach_then_descend(
    cs: Seq<(Seq<char>, NodeView)>,
    segs: Seq<Seq<char>>,
    node: NodeView,
    q: Seq<Seq<char>>,
)
    requires
        wf_children(cs),
        segs.len() > 0,
        attach_fault(cs, segs, node) is None,
    ensures
        descend_in(replace_at(cs, segs, node), segs) == DescendView::Found(node),
        diverge(segs, q) ==> descend_in(replace_at(cs, segs, node), q) == descend_in(cs, q),
{
    lemma_descend_replace_at(cs, segs, node, segs);
    lemma_descend_replace_at(cs, segs, node, q);
    assert(segs.skip(segs.len() as int) =~= Seq::<Seq<char>>::empty());
}

/// After `detach`, nothing is found at the path.
pub proof fn lemma_detach_hides(cs: Seq<(Seq<char>, NodeView)>, segs: Seq<Seq<char>>)
    requires
        wf_children(cs),
        segs.len() > 0,
    ensures
        !(descend_in(remove_at(cs, segs), segs) is Found),
    decreases segs.len(),
{
    let s0 = segs[0];
    if segs.len() == 1 {
        lemma_remove_child(cs, s0);
    } else {
        match lookup(cs, s0) {
            Some(NodeView::Dir { children, mode, mtime }) => {
                lemma_lookup_wf(cs, s0);
                let d = NodeView::Dir { children: remove_at(children, segs.drop_first()), mode, mtime };
                lemma_set_child(cs, s0, d);
                lemma_descend_step(set_child(cs, s0, d), segs);
                lemma_detach_hides(children, segs.drop_first());
            },
            _ => {
                lemma_descend_step(cs, segs);
            },
        }
    }
}

/// The directories `ensure_dirs` leaves along the path form a walk.
proof fn lemma_ensure_dirs_walk<G: Fn(&str) -> Option<Vec<String>>, F: Fn(&str) -> Option<u32>>(
    cs: Seq<(Seq<char>, NodeView)>,
    segs: Seq<Seq<char>>,
    made: Seq<NodeView>,
    g: G,
    f: F,
    prefix: Seq<Seq<char>>,
)
    requires
        wf_children(cs),
        ensure_fault(cs, segs) is None,
        resurrect_ok(cs, segs, made, g, f, prefix),
    ensures
        walk_to(ensure_at(cs, segs, made), segs) is Dir,
    decreases segs.len(),
{
    if segs.len() > 0 {
        let s0 = segs[0];
        let rest = segs.drop_first();
        let more = made.drop_first();
        let here = prefix.push(s0);
        let inner = match lookup(cs, s0) {
            Some(NodeView::Dir { children, .. }) => {
                lemma_lookup_wf(cs, s0);
                children
            },
            None => {
                lemma_ensure_fault_whiteouts(Seq::<(Seq<char>, NodeView)>::empty(), rest);
                Seq::<(Seq<char>, NodeView)>::empty()
            },
            _ => {
                let ch = made[0]->Dir_children;
                let (p, r) = choose|p: &str, r: Option<Vec<String>>|
                    p@ == absolute_of(here) && #[trigger] call_ensures(g, (p,), r) && ch == whiteouts_of(listing_names(r));
                lemma_whiteouts_of(listing_names(r));
                lemma_ensure_fault_whiteouts(ch, rest);
                ch
            },
        };
        let (mode, mtime) = match lookup(cs, s0) {
            Some(NodeView::Dir { mode, mtime, .. }) => (mode, mtime),
            _ => (made[0]->Dir_mode, made[0]->Dir_mtime),
        };
        let d = NodeView::Dir { children: ensure_at(inner, rest, more), mode, mtime };
        assert(ensure_at(cs, segs, made) == set_child(cs, s0, d));
        lemma_set_child(cs, s0, d);
        lemma_ensure_dirs_walk(inner, rest, more, g, f, here);
    }
}

/// After `ensure_dirs` succeeds, attaching a file or symlink directly
/// below the path is refused only where a directory already sits.
pub proof fn lemma_ensure_dirs_then_attach<G: Fn(&str) -> Option<Vec<String>>, F: Fn(&str) -> Option<u32>>(
    cs: Seq<(Seq<char>, NodeView)>,
    segs: Seq<Seq<char>>,
    made: Seq<NodeView>,
    g: G,
    f: F,
    name: Seq<char>,
    node: NodeView,
)
    requires
        wf_children(cs),
        ensure_fault(cs, segs) is None,
        resurrect_ok(cs, segs, made, g, f, Seq::<Seq<char>>::empty()),
        !(node is Dir),
    ensures
        attach_fault(ensure_at(cs, segs, made), segs.push(name), node) matches Some(fault) ==> fault is IsDir,
{
    lemma_ensure_dirs_walk(cs, segs, made, g, f, Seq::<Seq<char>>::empty());
    assert(segs.push(name).drop_last() =~= segs);
}

/// After `replace_at` below an existing directory chain, every proper
/// prefix of the path is still a directory.
pub proof fn lemma_replace_at_keeps_dirs(cs: Seq<(Seq<char>, NodeView)>, segs: Seq<Seq<char>>, node: NodeView, k: int)
    requires
        wf_children(cs),
        1 <= k < segs.len(),
        walk_to(cs, segs.drop_last()) is Dir,
    ensures
        descend_in(replace_at(cs, segs, node), segs.take(k)) matches DescendView::Found(NodeView::Dir { .. }),
    decreases segs.len(),
{
    let s0 = segs[0];
    assert(segs.drop_last()[0] == s0);
    match lookup(cs, s0) {
        Some(NodeView::Dir { children, mode, mtime }) => {
            lemma_lookup_wf(cs, s0);
            let inner = replace_at(children, segs.drop_first(), node);
            let d = NodeView::Dir { children: inner, mode, mtime };
            lemma_set_child(cs, s0, d);
            let new = set_child(cs, s0, d);
            assert(replace_at(cs, segs, node) == new);
            lemma_descend_step(new, segs.take(k));
            assert(segs.take(k)[0] == s0);
            if k > 1 {
                assert(segs.take(k).drop_first() =~= segs.drop_first().take(k - 1));
                assert(segs.drop_last().drop_first() =~= segs.drop_first().drop_last());
                lemma_replace_at_keeps_dirs(children, segs.drop_first(), node, k - 1);
            } else {
                assert(segs.take(k).drop_first().len() == 0);
            }
        },
        _ => {},
    }
}

// ── Paths left alone by an edit elsewhere ──────────────────────────

/// Every proper prefix of the path is a directory.
pub open spec fn dirs_above(cs: Seq<(Seq<char>, NodeView)>, t: Seq<Seq<char>>) -> bool {
    forall|k: int| 1 <= k < t.len() ==> #[trigger] descend_in(cs, t.take(k)) matches DescendView::Found(NodeView::Dir { .. })
}

/// Changing the child `name` keeps descent along any path that starts
/// with another name.
proof fn lemma_other_child_keeps(cs: Seq<(Seq<char>, NodeView)>, new: Seq<(Seq<char>, NodeView)>, name: Seq<char>, t: Seq<Seq<char>>)
    requires
        t.len() > 0,
        t[0] != name,
        lookup(new, t[0]) == lookup(cs, t[0]),
    ensures
        dirs_above(cs, t) ==> dirs_above(new, t),
        descend_in(new, t) == descend_in(cs, t),
{
    assert forall|k: int| 1 <= k <= t.len() implies #[trigger] descend_in(new, t.take(k)) == descend_in(cs, t.take(k)) by {
        assert(t.take(k)[0] == t[0]);
        lemma_descend_step(new, t.take(k));
        lemma_descend_step(cs, t.take(k));
    }
    assert(t.take(t.len() as int) =~= t);
}

/// Entering the directory child `t[0]`: descent along `t` is descent
/// along the rest of `t` among its children.
proof fn lemma_enter_child(cs: Seq<(Seq<char>, NodeView)>, t: Seq<Seq<char>>, children: Seq<(Seq<char>, NodeView)>, mode: u32, mtime: SystemTime)
    requires
        t.len() > 1,
        lookup(cs, t[0]) == Some(NodeView::Dir { children, mode, mtime }),
    ensures
        descend_in(cs, t) == descend_in(children, t.drop_first()),
        dirs_above(cs, t) <==> dirs_above(children, t.drop_first()),
{
    lemma_descend_step(cs, t);
    assert forall|k: int| 2 <= k <= t.len() implies #[trigger] descend_in(cs, t.take(k)) == descend_in(
        children,
        t.drop_first().take(k - 1),
    ) by {
        assert(t.take(k)[0] == t[0]);
        assert(t.take(k).drop_first() =~= t.drop_first().take(k - 1));
        lemma_descend_step(cs, t.take(k));
    }
    assert(t.take(1)[0] == t[0]);
    lemma_descend_step(cs, t.take(1));
    if dirs_above(cs, t) {
        assert forall|j: int| 1 <= j < t.drop_first().len() implies #[trigger] descend_in(children, t.drop_first().take(j)) matches DescendView::Found(
            NodeView::Dir { .. },
        ) by {
            assert(descend_in(cs, t.take(j + 1)) == descend_in(children, t.drop_first().take(j)));
        }
    }
    if dirs_above(children, t.drop_first()) {
        assert forall|k: int| 1 <= k < t.len() implies #[trigger] descend_in(cs, t.take(k)) matches DescendView::Found(NodeView::Dir { .. }) by {
            if k >= 2 {
                assert(descend_in(cs, t.take(k)) == descend_in(children, t.drop_first().take(k - 1)));
            }
        }
    }
}

/// `replace_at` leaves a path that diverges from it as it was: the
/// directories above it and what descent finds there.
pub proof fn lemma_replace_at_keeps_apart(cs: Seq<(Seq<char>, NodeView)>, segs: Seq<Seq<char>>, node: NodeView, t: Seq<Seq<char>>)
    requires
        wf_children(cs),
        diverge(segs, t),
        dirs_above(cs, t),
    ensures
        dirs_above(replace_at(cs, segs, node), t),
        descend_in(replace_at(cs, segs, node), t) == descend_in(cs, t),
    decreases segs.len(),
{
    if segs.len() == 0 {
        assert(segs.is_prefix_of(t));
    } else if t.len() == 0 {
        assert(t.is_prefix_of(segs));
    } else {
        let s0 = segs[0];
        let new = replace_at(cs, segs, node);
        if t[0] != s0 {
            if segs.len() == 1 {
                lemma_set_child(cs, s0, node);
            } else if let Some(NodeView::Dir { children, mode, mtime }) = lookup(cs, s0) {
                lemma_set_child(cs, s0, NodeView::Dir { children: replace_at(children, segs.drop_first(), node), mode, mtime });
            }
            lemma_other_child_keeps(cs, new, s0, t);
        } else {
            if segs.len() == 1 {
                assert(segs.is_prefix_of(t));
            }
            if t.len() == 1 {
                assert(t.is_prefix_of(segs));
            }
            assert(t.take(1)[0] == t[0]);
            lemma_descend_step(cs, t.take(1));
            if let Some(NodeView::Dir { children, mode, mtime }) = lookup(cs, s0) {
                lemma_lookup_wf(cs, s0);
                let rest = segs.drop_first();
                let inner = replace_at(children, rest, node);
                let d = NodeView::Dir { children: inner, mode, mtime };
                lemma_set_child(cs, s0, d);
                lemma_enter_child(cs, t, children, mode, mtime);
                lemma_enter_child(new, t, inner, mode, mtime);
                assert(diverge(rest, t.drop_first())) by {
                    if rest.is_prefix_of(t.drop_first()) {
                        assert forall|i: int| 0 <= i < segs.len() implies segs[i] == t[i] by {
                            if i > 0 {
                                assert(segs[i] == rest[i - 1]);
                            }
                        }
                    }
                    if t.drop_first().is_prefix_of(rest) {
                        assert forall|i: int| 0 <= i < t.len() implies t[i] == segs[i] by {
                            if i > 0 {
                                assert(t[i] == t.drop_first()[i - 1]);
                            }
                        }
                    }
                }
                lemma_replace_at_keeps_apart(children, rest, node, t.drop_first());
            }
        }
    }
}

/// `remove_at` leaves a path that diverges from it as it was.
pub proof fn lemma_remove_at_keeps_apart(cs: Seq<(Seq<char>, NodeView)>, segs: Seq<Seq<char>>, t: Seq<Seq<char>>)
    requires
        wf_children(cs),
        diverge(segs, t),
        dirs_above(cs, t),
    ensures
        dirs_above(remove_at(cs, segs), t),
        descend_in(remove_at(cs, segs), t) == descend_in(cs, t),
    decreases segs.len(),
{
    if segs.len() == 0 {
        assert(segs.is_prefix_of(t));
    } else if t.len() == 0 {
        assert(t.is_prefix_of(segs));
    } else {
        let s0 = segs[0];
        let new = remove_at(cs, segs);
        if t[0] != s0 {
            if segs.len() == 1 {
                lemma_remove_child(cs, s0);
            } else if let Some(NodeView::Dir { children, mode, mtime }) = lookup(cs, s0) {
                lemma_set_child(cs, s0, NodeView::Dir { children: remove_at(children, segs.drop_first()), mode, mtime });
            }
            lemma_other_child_keeps(cs, new, s0, t);
        } else {
            if segs.len() == 1 {
                assert(segs.is_prefix_of(t));
            }
            if t.len() == 1 {
                assert(t.is_prefix_of(segs));
            }
            assert(t.take(1)[0] == t[0]);
            lemma_descend_step(cs, t.take(1));
            if let Some(NodeView::Dir { children, mode, mtime }) = lookup(cs, s0) {
                lemma_lookup_wf(cs, s0);
                let rest = segs.drop_first();
                let inner = remove_at(children, rest);
                let d = NodeView::Dir { children: inner, mode, mtime };
                lemma_set_child(cs, s0, d);
                lemma_enter_child(cs, t, children, mode, mtime);
                lemma_enter_child(new, t, inner, mode, mtime);
                assert(diverge(rest, t.drop_first())) by {
                    if rest.is_prefix_of(t.drop_first()) {
                        assert forall|i: int| 0 <= i < segs.len() implies segs[i] == t[i] by {
                            if i > 0 {
                                assert(segs[i] == rest[i - 1]);
                            }
                        }
                    }
                    if t.drop_first().is_prefix_of(rest) {
                        assert forall|i: int| 0 <= i < t.len() implies t[i] == segs[i] by {
                            if i > 0 {
                                assert(t[i] == t.drop_first()[i - 1]);
                            }
                        }
                    }
                }
                lemma_remove_at_keeps_apart(children, rest, t.drop_first());
            }
        }
    }
}

/// Creating directories along `p` leaves any path that is not a prefix of
/// `p` (and has directories above it) as it was.
pub proof fn lemma_ensure_at_keeps_apart(cs: Seq<(Seq<char>, NodeView)>, p: Seq<Seq<char>>, made: Seq<NodeView>, t: Seq<Seq<char>>)
    requires
        wf_children(cs),
        !t.is_prefix_of(p),
        dirs_above(cs, t),
    ensures
        dirs_above(ensure_at(cs, p, made), t),
        descend_in(ensure_at(cs, p, made), t) == descend_in(cs, t),
    decreases p.len(),
{
    if p.len() > 0 {
        let s0 = p[0];
        let rest = p.drop_first();
        let more = made.drop_first();
        let new = ensure_at(cs, p, made);
        if t[0] != s0 {
            match lookup(cs, s0) {
                Some(NodeView::Dir { children, mode, mtime }) => {
                    lemma_set_child(cs, s0, NodeView::Dir { children: ensure_at(children, rest, more), mode, mtime });
                },
                Some(NodeView::File { .. }) => {},
                Some(NodeView::Symlink { .. }) => {},
                _ => match made[0] {
                    NodeView::Dir { children, mode, mtime } => {
                        lemma_set_child(cs, s0, NodeView::Dir { children: ensure_at(children, rest, more), mode, mtime });
                    },
                    _ => {},
                },
            }
            lemma_other_child_keeps(cs, new, s0, t);
        } else {
            if t.len() == 1 {
                assert(t.is_prefix_of(p));
            }
            assert(t.take(1)[0] == t[0]);
            lemma_descend_step(cs, t.take(1));
            if let Some(NodeView::Dir { children, mode, mtime }) = lookup(cs, s0) {
                lemma_lookup_wf(cs, s0);
                let inner = ensure_at(children, rest, more);
                let d = NodeView::Dir { children: inner, mode, mtime };
                lemma_set_child(cs, s0, d);
                lemma_enter_child(cs, t, children, mode, mtime);
                lemma_enter_child(new, t, inner, mode, mtime);
                assert(!t.drop_first().is_prefix_of(rest)) by {
                    if t.drop_first().is_prefix_of(rest) {
                        assert forall|i: int| 0 <= i < t.len() implies t[i] == p[i] by {
                            if i > 0 {
                                assert(t[i] == t.drop_first()[i - 1]);
                            }
                        }
                    }
                }
                lemma_ensure_at_keeps_apart(children, rest, more, t.drop_first());
            }
        }
    }
}

/// A node reached by descent has directories above it.
pub proof fn lemma_found_dirs_above(cs: Seq<(Seq<char>, NodeView)>, t: Seq<Seq<char>>)
    requires
        descend_in(cs, t) is Found,
    ensures
        dirs_above(cs, t),
    decreases t.len(),
{
    if t.len() > 1 {
        assert(t.take(1)[0] == t[0]);
        lemma_descend_step(cs, t.take(1));
        if let Some(NodeView::Dir { children, mode, mtime }) = lookup(cs, t[0]) {
            lemma_enter_child(cs, t, children, mode, mtime);
            lemma_found_dirs_above(children, t.drop_first());
        }
    }
}

/// Appends copies of the entries of `cs` from `i` on to `out`.
fn copy_entries(cs: &Vec<(String, UpperNode)>, i: usize, out: &mut Vec<(String, UpperNode)>)
    requires
        i <= cs@.len(),
    ensures
        children_view(final(out)@) == children_view(old(out)@) + children_view(cs@).skip(i as int),
    decreases cs@, cs@.len() - i,
{
    proof {
        lemma_children_view(cs@);
        lemma_children_view(out@);
    }
    if i == cs.len() {
        assert(children_view(out@) =~= children_view(out@) + children_view(cs@).skip(i as int));
        return;
    }
    let name = cs[i].0.clone();
    let node = match &cs[i].1 {
        UpperNode::File { content, mode, mtime } => {
            let c = content.clone();
            UpperNode::File { content: c, mode: *mode, mtime: *mtime }
        },
        UpperNode::Dir { children, mode, mtime } => {
            let mut sub: Vec<(String, UpperNode)> = Vec::new();
            proof {
                assert(decreases_to!(cs@ => cs@[i as int]));
            }
            copy_entries(children, 0, &mut sub);
            proof {
                lemma_children_view(children@);
                assert(children_view(children@).skip(0) =~= children_view(children@));
                assert(children_view(Seq::<(String, UpperNode)>::empty()) =~= Seq::<(Seq<char>, NodeView)>::empty());
                assert(Seq::<(Seq<char>, NodeView)>::empty() + children_view(children@) =~= children_view(children@));
            }
            UpperNode::Dir { children: sub, mode: *mode, mtime: *mtime }
        },
        UpperNode::Symlink { target, mtime } => UpperNode::Symlink { target: target.clone(), mtime: *mtime },
        UpperNode::Whiteout => UpperNode::Whiteout,
    };
    proof {
        assert(node_view(node) == node_view(cs@[i as int].1));
    }
    let ghost before = children_view(out@);
    out.push((name, node));
    proof {
        lemma_children_view(out@);
        assert(children_view(out@) =~= before.push((cs@[i as int].0@, node_view(cs@[i as int].1))));
    }
    copy_entries(cs, i + 1, out);
    proof {
        assert(children_view(cs@).skip(i as int) =~= seq![(cs@[i as int].0@, node_view(cs@[i as int].1))] + children_view(cs@).skip(
            i + 1,
        ));
        assert(children_view(final(out)@) =~= children_view(old(out)@) + children_view(cs@).skip(i as int));
    }
}

/// After `ensure_dirs` at `p` succeeds, attaching a file or symlink
/// directly below `p` is refused only where a directory already sat
/// before: directories made on the way hold nothing but whiteouts.
pub proof fn lemma_ensure_then_attach_ok<G: Fn(&str) -> Option<Vec<String>>, F: Fn(&str) -> Option<u32>>(
    cs: Seq<(Seq<char>, NodeView)>,
    p: Seq<Seq<char>>,
    made: Seq<NodeView>,
    g: G,
    f: F,
    prefix: Seq<Seq<char>>,
    name: Seq<char>,
    node: NodeView,
)
    requires
        wf_children(cs),
        ensure_fault(cs, p) is None,
        resurrect_ok(cs, p, made, g, f, prefix),
        !(node is Dir),
        !(descend_in(cs, p.push(name)) matches DescendView::Found(NodeView::Dir { .. })),
    ensures
        attach_fault(ensure_at(cs, p, made), p.push(name), node) is None,
    decreases p.len(),
{
    let q = p.push(name);
    assert(q.drop_last() =~= p);
    assert(q.last() == name);
    if p.len() == 0 {
        assert(q =~= seq![name]);
        lemma_descend_step(cs, q);
    } else {
        let s0 = p[0];
        let rest = p.drop_first();
        let more = made.drop_first();
        let here = prefix.push(s0);
        let inner = match lookup(cs, s0) {
            Some(NodeView::Dir { children, .. }) => {
                lemma_lookup_wf(cs, s0);
                children
            },
            None => Seq::<(Seq<char>, NodeView)>::empty(),
            _ => {
                let ch = made[0]->Dir_children;
                let (pp, r) = choose|pp: &str, r: Option<Vec<String>>|
                    pp@ == absolute_of(here) && #[trigger] call_ensures(g, (pp,), r) && ch == whiteouts_of(listing_names(r));
                lemma_whiteouts_of(listing_names(r));
                lemma_ensure_fault_whiteouts(ch, rest);
                ch
            },
        };
        let (mode, mtime) = match lookup(cs, s0) {
            Some(NodeView::Dir { mode, mtime, .. }) => (mode, mtime),
            _ => (made[0]->Dir_mode, made[0]->Dir_mtime),
        };
        let d = NodeView::Dir { children: ensure_at(inner, rest, more), mode, mtime };
        assert(ensure_at(cs, p, made) == set_child(cs, s0, d));
        lemma_set_child(cs, s0, d);
        let rq = rest.push(name);
        assert(q[0] == s0);
        assert(q.drop_first() =~= rq);
        assert(rq.drop_last() =~= rest);
        assert(q.drop_last().drop_first() =~= rest);
        assert(!(descend_in(inner, rq) matches DescendView::Found(NodeView::Dir { .. }))) by {
            match lookup(cs, s0) {
                Some(NodeView::Dir { children, .. }) => {
                    lemma_descend_step(cs, q);
                },
                None => {},
                _ => {
                    if rq.len() > 0 && has_name(inner, rq[0]) {
                        let j = index_of_name(inner, rq[0]);
                        assert(inner[j].1 is Whiteout);
                    }
                },
            }
        }
        lemma_ensure_then_attach_ok(inner, rest, more, g, f, here, name, node);
    }
}

/// Where directories can be ensured along `p`, no prefix of `p` is an
/// upper symlink.
pub proof fn lemma_no_links_along(cs: Seq<(Seq<char>, NodeView)>, p: Seq<Seq<char>>)
    requires
        ensure_fault(cs, p) is None,
    ensures
        forall|k: int| 1 <= k <= p.len() ==> !(#[trigger] descend_in(cs, p.take(k)) matches DescendView::Found(NodeView::Symlink { .. })),
    decreases p.len(),
{
    if p.len() > 0 {
        let s0 = p[0];
        if let Some(NodeView::Dir { children, .. }) = lookup(cs, s0) {
            lemma_no_links_along(children, p.drop_first());
        }
        assert forall|k: int| 1 <= k <= p.len() implies !(#[trigger] descend_in(cs, p.take(k)) matches DescendView::Found(
            NodeView::Symlink { .. },
        )) by {
            assert(p.take(k)[0] == s0);
            lemma_descend_step(cs, p.take(k));
            if k >= 2 {
                if let Some(NodeView::Dir { children, .. }) = lookup(cs, s0) {
                    assert(p.take(k).drop_first() =~= p.drop_first().take(k - 1));
                }
            }
        }
    }
}

/// Directories can be ensured along `p` only where no file lies on `p`:
/// a file reached through directories is never a prefix of such a `p`.
pub proof fn lemma_ensure_passes_no_file(cs: Seq<(Seq<char>, NodeView)>, p: Seq<Seq<char>>, q: Seq<Seq<char>>)
    requires
        ensure_fault(cs, p) is None,
        dirs_above(cs, q),
        descend_in(cs, q) matches DescendView::Found(NodeView::File { .. }),
    ensures
        !q.is_prefix_of(p),
    decreases q.len(),
{
    if q.is_prefix_of(p) {
        assert(q.take(1)[0] == q[0]);
        lemma_descend_step(cs, q.take(1));
        lemma_descend_step(cs, q);
        assert(p[0] == q[0]);
        if q.len() > 1 {
            if let Some(NodeView::Dir { children, mode, mtime }) = lookup(cs, q[0]) {
                lemma_enter_child(cs, q, children, mode, mtime);
                assert(q.drop_first().is_prefix_of(p.drop_first())) by {
                    assert forall|i: int| 0 <= i < q.drop_first().len() implies q.drop_first()[i] == p.drop_first()[i] by {
                        assert(q[i + 1] == p[i + 1]);
                    }
                }
                lemma_ensure_passes_no_file(children, p.drop_first(), q.drop_first());
            }
        }
    }
}

/// A node that `locate` finds is the node that descent finds.
pub proof fn lemma_located_is_found(cs: Seq<(Seq<char>, NodeView)>, segs: Seq<Seq<char>>)
    requires
        segs.len() > 0,
        locate(cs, segs) is At,
    ensures
        descend_in(cs, segs) == DescendView::Found(locate(cs, segs)->At_0),
    decreases segs.len(),
{
    if segs.len() > 1 {
        assert(segs.drop_last()[0] == segs[0]);
        assert(segs.drop_last().drop_first() =~= segs.drop_first().drop_last());
        assert(segs.drop_first().last() == segs.last());
        if let Some(NodeView::Dir { children, .. }) = lookup(cs, segs[0]) {
            lemma_located_is_found(children, segs.drop_first());
        }
    }
}

/// Descent past a node found at `segs` continues inside that node.
pub proof fn lemma_descend_split(cs: Seq<(Seq<char>, NodeView)>, segs: Seq<Seq<char>>, q: Seq<Seq<char>>)
    requires
        descend_in(cs, segs) is Found,
        segs.is_prefix_of(q),
    ensures
        descend_in(cs, q) == descend_node(descend_in(cs, segs)->Found_0, q.skip(segs.len() as int)),
    decreases segs.len(),
{
    lemma_descend_step(cs, q);
    lemma_descend_step(cs, segs);
    assert(q[0] == segs[0]);
    if segs.len() == 1 {
        assert(q.drop_first() =~= q.skip(1));
    } else if let Some(NodeView::Dir { children, .. }) = lookup(cs, segs[0]) {
        assert(segs.drop_first().is_prefix_of(q.drop_first())) by {
            assert forall|i: int| 0 <= i < segs.drop_first().len() implies segs.drop_first()[i] == q.drop_first()[i] by {
                assert(segs[i + 1] == q[i + 1]);
            }
        }
        lemma_descend_split(children, segs.drop_first(), q.drop_first());
        assert(q.drop_first().skip(segs.len() - 1) =~= q.skip(segs.len() as int));
    }
}

/// Every non-empty prefix of a path that walks through directories is a
/// directory.
pub proof fn lemma_walk_dirs(cs: Seq<(Seq<char>, NodeView)>, p: Seq<Seq<char>>, k: int)
    requires
        walk_to(cs, p) is Dir,
        1 <= k <= p.len(),
    ensures
        descend_in(cs, p.take(k)) matches DescendView::Found(NodeView::Dir { .. }),
    decreases p.len(),
{
    assert(p.take(k)[0] == p[0]);
    lemma_descend_step(cs, p.take(k));
    if let Some(NodeView::Dir { children, .. }) = lookup(cs, p[0]) {
        if k > 1 {
            assert(p.take(k).drop_first() =~= p.drop_first().take(k - 1));
            lemma_walk_dirs(children, p.drop_first(), k - 1);
        }
    }
}

/// Removing the node at `segs` (as `detach` does) leaves descent along
/// every path apart from it (neither above nor below it) as it was,
/// whatever stands on the way.
pub proof fn lemma_detach_frame(cs: Seq<(Seq<char>, NodeView)>, segs: Seq<Seq<char>>, q: Seq<Seq<char>>)
    requires
        wf_children(cs),
        diverge(segs, q),
    ensures
        descend_in(remove_at(cs, segs), q) == descend_in(cs, q),
    decreases segs.len(),
{
    if segs.len() == 0 {
        assert(segs.is_prefix_of(q));
    } else if q.len() == 0 {
        assert(q.is_prefix_of(segs));
    } else {
        let s0 = segs[0];
        let new = remove_at(cs, segs);
        lemma_descend_step(cs, q);
        lemma_descend_step(new, q);
        if segs.len() == 1 {
            lemma_remove_child(cs, s0);
            if q[0] == s0 {
                assert(segs.is_prefix_of(q));
            }
        } else if let Some(NodeView::Dir { children, mode, mtime }) = lookup(cs, s0) {
            lemma_lookup_wf(cs, s0);
            let rest = segs.drop_first();
            let d = NodeView::Dir { children: remove_at(children, rest), mode, mtime };
            lemma_set_child(cs, s0, d);
            if q[0] == s0 {
                assert(q.len() > 1) by {
                    if q.len() == 1 {
                        assert(q.is_prefix_of(segs));
                    }
                }
                assert(diverge(rest, q.drop_first())) by {
                    if rest.is_prefix_of(q.drop_first()) {
                        assert forall|i: int| 0 <= i < segs.len() implies segs[i] == q[i] by {
                            if i > 0 {
                                assert(segs[i] == rest[i - 1]);
                            }
                        }
                    }
                    if q.drop_first().is_prefix_of(rest) {
                        assert forall|i: int| 0 <= i < q.len() implies q[i] == segs[i] by {
                            if i > 0 {
                                assert(q[i] == q.drop_first()[i - 1]);
                            }
                        }
                    }
                }
                lemma_detach_frame(children, rest, q.drop_first());
            }
        }
    }
}

/// After `put_whiteout` at `segs` (ancestors clear, scaffolding `made`),
/// every path apart from `segs` that directories led to before is reached
/// the same way and finds what it found before.
pub proof fn lemma_put_whiteout_frame<F: Fn(&str) -> Option<u32>>(
    cs: Seq<(Seq<char>, NodeView)>,
    segs: Seq<Seq<char>>,
    made: Seq<NodeView>,
    f: F,
    q: Seq<Seq<char>>,
)
    requires
        wf_children(cs),
        segs.len() > 0,
        prefix_clear(cs, segs.drop_last()),
        scaffold_ok(cs, segs.drop_last(), made, f, Seq::<Seq<char>>::empty()),
        diverge(segs, q),
        dirs_above(cs, q),
    ensures
        dirs_above(replace_at(ensure_at(cs, segs.drop_last(), made), segs, NodeView::Whiteout), q),
        descend_in(replace_at(ensure_at(cs, segs.drop_last(), made), segs, NodeView::Whiteout), q) == descend_in(cs, q),
{
    let mid = ensure_at(cs, segs.drop_last(), made);
    lemma_scaffold_walk(cs, segs.drop_last(), made, f, Seq::<Seq<char>>::empty());
    assert(!q.is_prefix_of(segs.drop_last())) by {
        if q.is_prefix_of(segs.drop_last()) {
            assert forall|i: int| 0 <= i < q.len() implies q[i] == segs[i] by {
                assert(segs.drop_last()[i] == segs[i]);
            }
            assert(q.is_prefix_of(segs));
        }
    }
    lemma_ensure_at_keeps_apart(cs, segs.drop_last(), made, q);
    lemma_replace_at_keeps_apart(mid, segs, NodeView::Whiteout, q);
}

/// `walk` and `walk_post` list the same nodes with the same paths, only
/// in another order.
pub proof fn lemma_walks_list_same_nodes(cs: Seq<(Seq<char>, NodeView)>, base: Seq<char>)
    ensures
        preorder(cs, base).to_multiset() == postorder(cs, base).to_multiset(),
    decreases cs,
{
    broadcast use vstd::multiset::group_multiset_axioms;
    broadcast use vstd::seq_lib::group_to_multiset_ensures;
    if cs.len() > 0 {
        let p = joined(base, cs[0].0);
        let here = seq![(p, cs[0].1)];
        lemma_walks_list_same_nodes(cs.drop_first(), base);
        let (pb, qb) = match cs[0].1 {
            NodeView::Dir { children, .. } => {
                assert(decreases_to!(cs => cs[0]));
                lemma_walks_list_same_nodes(children, p);
                (preorder(children, p), postorder(children, p))
            },
            _ => (Seq::<(Seq<char>, NodeView)>::empty(), Seq::<(Seq<char>, NodeView)>::empty()),
        };
        let pr = preorder(cs.drop_first(), base);
        let qr = postorder(cs.drop_first(), base);
        vstd::seq_lib::lemma_multiset_commutative(here + pb, pr);
        vstd::seq_lib::lemma_multiset_commutative(here, pb);
        vstd::seq_lib::lemma_multiset_commutative(qb + here, qr);
        vstd::seq_lib::lemma_multiset_commutative(qb, here);
        assert((here + pb).to_multiset() =~= (qb + here).to_multiset());
        assert(preorder(cs, base).to_multiset() =~= postorder(cs, base).to_multiset());
    }
}

/// One plain path component: nonempty, without `/`, neither `.` nor `..`.
pub open spec fn plain_component(s: Seq<char>) -> bool {
    crate::vfs::paths::clean_segments(seq![s]) && slash_free(seq![s])
}

/// Every name at every level of the tree is a plain path component, as
/// the names of normalized paths are.
pub open spec fn plain_children(cs: Seq<(Seq<char>, NodeView)>) -> bool
    decreases cs, 0nat,
{
    &&& forall|i: int| 0 <= i < cs.len() ==> plain_component(#[trigger] cs[i].0)
    &&& forall|i: int| 0 <= i < cs.len() ==> plain_node(#[trigger] cs[i].1)
}

pub open spec fn plain_node(n: NodeView) -> bool
    decreases n, 1nat,
{
    match n {
        NodeView::Dir { children, .. } => plain_children(children),
        _ => true,
    }
}

/// The component lists of the paths that `preorder` lists below `base`.
pub open spec fn preorder_keys(cs: Seq<(Seq<char>, NodeView)>, base: Seq<Seq<char>>) -> Seq<Seq<Seq<char>>>
    decreases cs,
{
    if cs.len() == 0 {
        seq![]
    } else {
        let k = base.push(cs[0].0);
        let below = match cs[0].1 {
            NodeView::Dir { children, .. } => preorder_keys(children, k),
            _ => seq![],
        };
        seq![k] + below + preorder_keys(cs.drop_first(), base)
    }
}

/// The paths `preorder` lists are the absolute paths of `preorder_keys`.
proof fn lemma_preorder_paths(cs: Seq<(Seq<char>, NodeView)>, base: Seq<Seq<char>>)
    requires
        plain_children(cs),
        crate::vfs::paths::clean_segments(base),
        slash_free(base),
    ensures
        preorder(cs, absolute_of(base)).len() == preorder_keys(cs, base).len(),
        forall|i: int|
            0 <= i < preorder_keys(cs, base).len() ==> {
                &&& preorder(cs, absolute_of(base))[i].0 == absolute_of(#[trigger] preorder_keys(cs, base)[i])
                &&& crate::vfs::paths::clean_segments(preorder_keys(cs, base)[i])
                &&& slash_free(preorder_keys(cs, base)[i])
            },
    decreases cs,
{
    if cs.len() > 0 {
        let c0 = cs[0].0;
        let k = base.push(c0);
        assert(plain_component(cs[0].0));
        assert(seq![c0][0] == c0);
        if base.len() > 0 {
            assert(base.last() == base[base.len() - 1]);
            assert(base.last().len() > 0);
            assert(base.last()[base.last().len() - 1] != '/');
        }
        crate::vfs::paths::lemma_join_absolute(base, c0);
        assert(crate::vfs::paths::clean_segments(k)) by {
            assert forall|i: int| 0 <= i < k.len() implies (#[trigger] k[i]).len() > 0 && !crate::vfs::paths::is_dot(k[i])
                && !crate::vfs::paths::is_dot_dot(k[i]) by {
                if i < base.len() {
                    assert(k[i] == base[i]);
                } else {
                    assert(k[i] == seq![c0][0]);
                }
            }
        }
        assert(slash_free(k)) by {
            assert forall|i: int, j: int| 0 <= i < k.len() && 0 <= j < k[i].len() implies #[trigger] k[i][j] != '/' by {
                if i < base.len() {
                    assert(k[i] == base[i]);
                } else {
                    assert(k[i] == seq![c0][0]);
                }
            }
        }
        let p = joined(absolute_of(base), c0);
        assert(p == absolute_of(k));
        assert(plain_children(cs.drop_first())) by {
            assert forall|i: int| 0 <= i < cs.drop_first().len() implies plain_component(#[trigger] cs.drop_first()[i].0) by {
                assert(cs.drop_first()[i] == cs[i + 1]);
            }
            assert forall|i: int| 0 <= i < cs.drop_first().len() implies plain_node(#[trigger] cs.drop_first()[i].1) by {
                assert(cs.drop_first()[i] == cs[i + 1]);
            }
        }
        lemma_preorder_paths(cs.drop_first(), base);
        let rest_p = preorder(cs.drop_first(), absolute_of(base));
        let rest_k = preorder_keys(cs.drop_first(), base);
        let (below_p, below_k) = match cs[0].1 {
            NodeView::Dir { children, .. } => {
                assert(decreases_to!(cs => cs[0]));
                assert(plain_node(cs[0].1));
                lemma_preorder_paths(children, k);
                (preorder(children, p), preorder_keys(children, k))
            },
            _ => (Seq::<(Seq<char>, NodeView)>::empty(), Seq::<Seq<Seq<char>>>::empty()),
        };
        let all_p = seq![(p, cs[0].1)] + below_p + rest_p;
        let all_k = seq![k] + below_k + rest_k;
        assert(preorder(cs, absolute_of(base)) == all_p);
        assert(preorder_keys(cs, base) == all_k);
        assert forall|i: int| 0 <= i < all_k.len() implies {
            &&& all_p[i].0 == absolute_of(#[trigger] all_k[i])
            &&& crate::vfs::paths::clean_segments(all_k[i])
            &&& slash_free(all_k[i])
        } by {
            if i == 0 {
            } else if i < 1 + below_k.len() {
                assert(all_k[i] == below_k[i - 1]);
                assert(all_p[i] == below_p[i - 1]);
            } else {
                assert(all_k[i] == rest_k[i - 1 - below_k.len()]);
                assert(all_p[i] == rest_p[i - 1 - below_k.len()]);
            }
        }
    }
}

/// A proper prefix orders before what it starts.
proof fn lemma_seg_lt_of_prefix(x: Seq<Seq<char>>, y: Seq<Seq<char>>)
    requires
        x.is_prefix_of(y),
        x.len() < y.len(),
    ensures
        crate::vfs::overlay::seg_lt(x, y),
    decreases x.len(),
{
    if x.len() > 0 {
        assert(x[0] == y[0]);
        assert(x.drop_first().is_prefix_of(y.drop_first())) by {
            assert forall|i: int| 0 <= i < x.drop_first().len() implies x.drop_first()[i] == y.drop_first()[i] by {
                assert(x[i + 1] == y[i + 1]);
            }
        }
        lemma_seg_lt_of_prefix(x.drop_first(), y.drop_first());
        lemma_chars_lt_irreflexive(x[0]);
    }
}

/// Two lists that agree on `p` and then differ order by the next name.
proof fn lemma_seg_lt_after(p: Seq<Seq<char>>, x: Seq<Seq<char>>, y: Seq<Seq<char>>)
    requires
        p.is_prefix_of(x),
        p.is_prefix_of(y),
        p.len() < x.len(),
        p.len() < y.len(),
        chars_lt(x[p.len() as int], y[p.len() as int]),
    ensures
        crate::vfs::overlay::seg_lt(x, y),
    decreases p.len(),
{
    if p.len() > 0 {
        assert(p[0] == x.subrange(0, p.len() as int)[0]);
        assert(p[0] == y.subrange(0, p.len() as int)[0]);
        assert(x[0] == y[0]);
        let p2 = p.drop_first();
        assert(p2.is_prefix_of(x.drop_first())) by {
            assert forall|i: int| 0 <= i < p2.len() implies p2[i] == x.drop_first()[i] by {
                assert(p[i + 1] == x[i + 1]);
            }
        }
        assert(p2.is_prefix_of(y.drop_first())) by {
            assert forall|i: int| 0 <= i < p2.len() implies p2[i] == y.drop_first()[i] by {
                assert(p[i + 1] == y[i + 1]);
            }
        }
        assert(x.drop_first()[p2.len() as int] == x[p.len() as int]);
        assert(y.drop_first()[p2.len() as int] == y[p.len() as int]);
        lemma_seg_lt_after(p2, x.drop_first(), y.drop_first());
        lemma_chars_lt_irreflexive(x[0]);
    }
}

/// The keys of `preorder` strictly increase, and each extends `base` by a
/// name of `cs`.
proof fn lemma_preorder_keys_sorted(cs: Seq<(Seq<char>, NodeView)>, base: Seq<Seq<char>>)
    requires
        wf_children(cs),
    ensures
        forall|i: int|
            0 <= i < preorder_keys(cs, base).len() ==> {
                &&& base.is_prefix_of(#[trigger] preorder_keys(cs, base)[i])
                &&& base.len() < preorder_keys(cs, base)[i].len()
                &&& exists|m: int| 0 <= m < cs.len() && preorder_keys(cs, base)[i][base.len() as int] == #[trigger] cs[m].0
            },
        forall|i: int, j: int|
            0 <= i < j < preorder_keys(cs, base).len() ==> crate::vfs::overlay::seg_lt(
                #[trigger] preorder_keys(cs, base)[i],
                #[trigger] preorder_keys(cs, base)[j],
            ),
    decreases cs,
{
    if cs.len() > 0 {
        let c0 = cs[0].0;
        let k = base.push(c0);
        let b = base.len() as int;
        assert(wf_children(cs.drop_first())) by {
            assert forall|i: int| 0 <= i < cs.drop_first().len() implies wf_node(#[trigger] cs.drop_first()[i].1) by {
                assert(cs.drop_first()[i] == cs[i + 1]);
            }
            assert forall|i: int, j: int| 0 <= i < j < cs.drop_first().len() implies chars_lt(
                #[trigger] cs.drop_first()[i].0,
                #[trigger] cs.drop_first()[j].0,
            ) by {
                assert(cs.drop_first()[i] == cs[i + 1]);
                assert(cs.drop_first()[j] == cs[j + 1]);
            }
        }
        lemma_preorder_keys_sorted(cs.drop_first(), base);
        let rest_k = preorder_keys(cs.drop_first(), base);
        let below_k = match cs[0].1 {
            NodeView::Dir { children, .. } => {
                assert(decreases_to!(cs => cs[0]));
                assert(wf_node(cs[0].1));
                lemma_preorder_keys_sorted(children, k);
                preorder_keys(children, k)
            },
            _ => Seq::<Seq<Seq<char>>>::empty(),
        };
        let all_k = seq![k] + below_k + rest_k;
        assert(preorder_keys(cs, base) == all_k);
        assert(base.is_prefix_of(k));
        assert(k[b] == c0);
        // Every key below the first name starts with `k`.
        assert forall|i: int| 0 <= i < below_k.len() implies k.is_prefix_of(#[trigger] below_k[i]) && k.len() < below_k[i].len() by {
            if let NodeView::Dir { children, .. } = cs[0].1 {
                let m = choose|m: int| 0 <= m < children.len() && below_k[i][k.len() as int] == #[trigger] children[m].0;
            }
        }
        // Every later key starts with `base` and then a later name.
        assert forall|i: int| 0 <= i < rest_k.len() implies base.is_prefix_of(#[trigger] rest_k[i]) && b < rest_k[i].len()
            && chars_lt(c0, rest_k[i][b]) by {
            let m = choose|m: int| 0 <= m < cs.drop_first().len() && rest_k[i][b] == #[trigger] cs.drop_first()[m].0;
            assert(cs.drop_first()[m] == cs[m + 1]);
        }
        assert forall|i: int|
            0 <= i < all_k.len() implies {
                &&& base.is_prefix_of(#[trigger] all_k[i])
                &&& b < all_k[i].len()
                &&& exists|m: int| 0 <= m < cs.len() && all_k[i][b] == #[trigger] cs[m].0
            } by {
            if i == 0 {
                assert(all_k[i][b] == cs[0].0);
            } else if i < 1 + below_k.len() {
                let x = below_k[i - 1];
                assert(all_k[i] == x);
                assert(k.is_prefix_of(x));
                assert(x[b] == k[b]);
                assert(all_k[i][b] == cs[0].0);
            } else {
                let x = rest_k[i - 1 - below_k.len()];
                assert(all_k[i] == x);
                let m = choose|m: int| 0 <= m < cs.drop_first().len() && x[b] == #[trigger] cs.drop_first()[m].0;
                assert(cs.drop_first()[m] == cs[m + 1]);
                assert(all_k[i][b] == cs[m + 1].0);
            }
        }
        assert forall|i: int, j: int| 0 <= i < j < all_k.len() implies crate::vfs::overlay::seg_lt(
            #[trigger] all_k[i],
            #[trigger] all_k[j],
        ) by {
            let nb = below_k.len() as int;
            if i == 0 {
                if j < 1 + nb {
                    assert(all_k[j] == below_k[j - 1]);
                    lemma_seg_lt_of_prefix(k, below_k[j - 1]);
                } else {
                    let y = rest_k[j - 1 - nb];
                    assert(all_k[j] == y);
                    lemma_seg_lt_after(base, k, y);
                }
            } else if i < 1 + nb {
                let x = below_k[i - 1];
                assert(all_k[i] == x);
                if j < 1 + nb {
                    assert(all_k[j] == below_k[j - 1]);
                } else {
                    let y = rest_k[j - 1 - nb];
                    assert(all_k[j] == y);
                    assert(k.is_prefix_of(x));
                    assert(x[b] == k[b]);
                    assert(base.is_prefix_of(x)) by {
                        assert forall|q: int| 0 <= q < base.len() implies base[q] == x[q] by {
                            assert(k[q] == base[q]);
                        }
                    }
                    lemma_seg_lt_after(base, x, y);
                }
            } else {
                assert(all_k[i] == rest_k[i - 1 - nb]);
                assert(all_k[j] == rest_k[j - 1 - nb]);
            }
        }
    }
}

/// Walk order: the pre-order listing that `walk` gives names every node
/// once, under paths that strictly increase component by component, so a
/// directory comes before everything below it and siblings come by name
/// (where every name in the tree is a plain path component).
pub proof fn lemma_walk_order(cs: Seq<(Seq<char>, NodeView)>)
    requires
        wf_children(cs),
        plain_children(cs),
    ensures
        forall|i: int, j: int|
            0 <= i < j < preorder(cs, "/"@).len() ==> crate::vfs::overlay::path_lt(
                #[trigger] preorder(cs, "/"@)[i].0,
                #[trigger] preorder(cs, "/"@)[j].0,
            ),
{
    let base = Seq::<Seq<char>>::empty();
    assert(absolute_of(base) =~= "/"@) by {
        reveal_strlit("/");
    }
    lemma_preorder_paths(cs, base);
    lemma_preorder_keys_sorted(cs, base);
    let keys = preorder_keys(cs, base);
    assert forall|i: int, j: int| 0 <= i < j < preorder(cs, "/"@).len() implies crate::vfs::overlay::path_lt(
        #[trigger] preorder(cs, "/"@)[i].0,
        #[trigger] preorder(cs, "/"@)[j].0,
    ) by {
        assert(preorder(cs, "/"@)[i].0 == absolute_of(keys[i]));
        assert(preorder(cs, "/"@)[j].0 == absolute_of(keys[j]));
        crate::vfs::paths::lemma_segments_of_absolute(keys[i]);
        crate::vfs::paths::lemma_segments_of_absolute(keys[j]);
    }
}

} // verus!
