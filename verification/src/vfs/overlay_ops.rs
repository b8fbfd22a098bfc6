//! Operations of the overlay filesystem over its upper tree, with the
//! lower layer asked through the caller's probes.
use std::time::SystemTime;

use vstd::prelude::*;

use crate::error::VfsError;
use crate::vfs::overlay::{
    absolute_path, lemma_write_target_clean, listing_is, lstat_overlay, merge_listing, merged_listing, normalize,
    not_absolute_error, path_components, probed, probed_result, resolve_layer, resolve_write_target, sync_apply, sync_entries_view,
    sync_fold, write_target_from, LayerResult, MAX_SYMLINK_DEPTH,
};
use crate::vfs::overlay_resolve::{answers_as, normal_abs, outcome_is, resolve_path_depth, resolve_spec, walk_spec, ResolveFault};
use crate::vfs::overlay_tree::{
    attach_fault, descend_in, ensure_at, ensure_fault, lemma_ensure_dirs_prefixes, resurrect_ok, strings_view, lemma_attach_then_descend, lemma_detach_hides, lemma_put_whiteout_blocks,
    edit_outcome, edited, listing_view, lemma_descend_replace_at, lemma_replace_at_keeps_dirs, locate, lookup, meta_view, prefix_clear,
    Edit, LocateView, remove_at, replace_at, scaffold_ok, wf_children, Descend,
    DescendView, NodeView, OverlayTree, UpperNode, descend_node, diverge, dirs_above, lemma_descend_split, lemma_ensure_at_keeps_apart,
    lemma_ensure_passes_no_file, lemma_found_dirs_above, lemma_located_is_found, lemma_replace_at_keeps_apart, lemma_walk_dirs,
};
use crate::vfs::paths::{
    absolute_of, clean_segments, lemma_normalized_is_clean, lemma_resolve_dots_clean, lemma_resolve_dots_of_clean, lemma_segments_of_absolute,
    lemma_segments_of_normalized, lemma_segments_shape, normalized_absolute, resolve_dots, segments_of, slash_free,
    starts_with_slash,
};
use crate::vfs::types::{system_time_now, DirEntry, Metadata, NodeType};

verus! {

/// A whiteout at the path or at or above one of its ancestors hides it.
pub open spec fn hidden_at(d: DescendView) -> bool {
    d is Blocked || d matches DescendView::Found(NodeView::Whiteout)
}

/// The upper tree holds visible content (anything but a whiteout) there.
pub open spec fn has_content(d: DescendView) -> bool {
    d matches DescendView::Found(n) && !(n is Whiteout)
}

/// `new` is `old` after `put_whiteout` at `segs`: missing ancestors are
/// scaffolded with modes the probe `f` gave, and the subtree at `segs`
/// becomes a whiteout leaf; nothing changes when an ancestor in the upper
/// tree is not a directory, or when `segs` is the root.
pub open spec fn whiteout_put<F: Fn(&str) -> Option<u32>>(
    old: Seq<(Seq<char>, NodeView)>,
    new: Seq<(Seq<char>, NodeView)>,
    segs: Seq<Seq<char>>,
    f: F,
) -> bool {
    if segs.len() > 0 && prefix_clear(old, segs.drop_last()) {
        exists|made: Seq<NodeView>| {
            &&& scaffold_ok(old, segs.drop_last(), made, f, Seq::<Seq<char>>::empty())
            &&& #[trigger] replace_at(ensure_at(old, segs.drop_last(), made), segs, NodeView::Whiteout) == new
        }
    } else {
        new == old
    }
}

/// The lower-layer type probe answered `k` for a path spelled `path`.
pub open spec fn kind_probed<L: Fn(&str) -> Option<NodeType>>(f: L, path: Seq<char>, k: Option<NodeType>) -> bool {
    exists|p: &str| p@ == path && #[trigger] call_ensures(f, (p,), k)
}

/// How a failed resolution shows in `remove_file`: any not-found (a
/// hidden component, or a lower link whose target is missing) is
/// `NotFound` for the path asked about; other errors pass through.
pub open spec fn remove_resolve_error(r: Result<(), VfsError>, f: ResolveFault, path: Seq<char>) -> bool {
    match f {
        ResolveFault::Hidden(_) => r matches Err(VfsError::NotFound(p)) && p@ == path,
        ResolveFault::Lower(VfsError::NotFound(_)) => r matches Err(VfsError::NotFound(p)) && p@ == path,
        _ => r matches Err(e) && outcome_is(Err::<String, VfsError>(e), Err(f)),
    }
}

/// The outcome of `remove_file` once the path resolved (without
/// following the final component) to `segs`: an upper directory or a
/// file in place of an ancestor refuses; other upper content is hidden
/// by a whiteout when the lower layer also has the path and detached
/// otherwise; with no upper entry the lower layer's type decides (a
/// directory refuses, another node is whited out, nothing there is
/// `NotFound`).
pub open spec fn remove_outcome<E: Fn(&str) -> bool, L: Fn(&str) -> Option<NodeType>, M: Fn(&str) -> Option<u32>>(
    r: Result<(), VfsError>,
    old: Seq<(Seq<char>, NodeView)>,
    new: Seq<(Seq<char>, NodeView)>,
    path: Seq<char>,
    segs: Seq<Seq<char>>,
    lower_exists: E,
    lower_kind: L,
    lower_mode: M,
) -> bool {
    let at = absolute_of(segs);
    match descend_in(old, segs) {
        DescendView::Found(NodeView::Dir { .. }) => r matches Err(VfsError::IsADirectory(p)) && p@ == path,
        DescendView::NotDir => r matches Err(VfsError::NotADirectory(p)) && p@ == path,
        DescendView::Found(_) => {
            &&& r is Ok
            &&& (probed(lower_exists, at, true) && whiteout_put(old, new, segs, lower_mode))
                || (probed(lower_exists, at, false) && new == remove_at(old, segs))
        },
        _ => {
            ||| kind_probed(lower_kind, at, Some(NodeType::Directory)) && (r matches Err(VfsError::IsADirectory(p)) && p@ == path)
            ||| (exists|k: NodeType| k != NodeType::Directory && kind_probed(lower_kind, at, Some(k))) && r is Ok
                && whiteout_put(old, new, segs, lower_mode)
            ||| kind_probed(lower_kind, at, None) && (r matches Err(VfsError::NotFound(p)) && p@ == path)
        },
    }
}

/// A node reached by descent has only directories above it.
pub proof fn lemma_found_prefix_clear(cs: Seq<(Seq<char>, NodeView)>, segs: Seq<Seq<char>>)
    requires
        descend_in(cs, segs) is Found,
    ensures
        prefix_clear(cs, segs.drop_last()),
    decreases segs.len(),
{
    if segs.len() > 1 {
        match lookup(cs, segs[0]) {
            Some(NodeView::Dir { children, .. }) => {
                lemma_found_prefix_clear(children, segs.drop_first());
                assert(segs.drop_last().drop_first() =~= segs.drop_first().drop_last());
            },
            _ => {},
        }
    }
}

/// Removes the file (or symlink) at `path`: mid-path symlinks, upper or
/// lower, are followed and the final component is not. On success the
/// path shows no content in the upper tree any more; on failure the tree
/// is unchanged.
pub fn remove_file<S, R, E, L, M>(
    tree: &mut OverlayTree,
    path: &str,
    lower_is_symlink: &S,
    lower_readlink: &R,
    lower_exists: &E,
    lower_kind: &L,
    lower_mode: &M,
) -> (r: Result<(), VfsError>) where
    S: Fn(&str) -> bool,
    R: Fn(&str) -> Result<String, VfsError>,
    E: Fn(&str) -> bool,
    L: Fn(&str) -> Option<NodeType>,
    M: Fn(&str) -> Option<u32>,

    requires
        old(tree).wf(),
        forall|p: &str| lower_is_symlink.requires((p,)),
        forall|p: &str| lower_readlink.requires((p,)),
        forall|p: &str| lower_exists.requires((p,)),
        forall|p: &str| lower_kind.requires((p,)),
        forall|p: &str| lower_mode.requires((p,)),
    ensures
        final(tree).wf(),
        r is Err ==> final(tree)@ == old(tree)@,
        !starts_with_slash(path@) ==> (r matches Err(e) && not_absolute_error(path@, e)),
        starts_with_slash(path@) && hidden_at(descend_in(old(tree)@, segments_of(normalized_absolute(path@)))) ==> (r matches Err(
            VfsError::NotFound(p),
        ) && p@ == path@),
        r is Ok ==> exists|segs: Seq<Seq<char>>|
            (whiteout_put(old(tree)@, final(tree)@, segs, *lower_mode) || final(tree)@ == remove_at(old(tree)@, segs))
                && !has_content(#[trigger] descend_in(final(tree)@, segs)),
        forall|links: spec_fn(Seq<char>) -> Option<Result<Seq<char>, VfsError>>|
            #[trigger] answers_as(links, *lower_is_symlink, *lower_readlink) && starts_with_slash(path@) && !hidden_at(
                descend_in(old(tree)@, segments_of(normalized_absolute(path@))),
            ) ==> match resolve_spec(old(tree)@, normalized_absolute(path@), false, MAX_SYMLINK_DEPTH as nat, links) {
                Err(f) => remove_resolve_error(r, f, path@),
                Ok(segs) => remove_outcome(r, old(tree)@, final(tree)@, path@, segs, *lower_exists, *lower_kind, *lower_mode),
            },
{
    let norm = match normalize(path) {
        Ok(p) => p,
        Err(e) => {
            return Err(e);
        },
    };
    if tree.descend(norm.as_str()).is_blocked_or_whiteout() {
        return Err(VfsError::NotFound(path.to_owned()));
    }
    let ghost old_view = tree@;
    let resolved = match resolve_path_depth(&*tree, norm.as_str(), false, MAX_SYMLINK_DEPTH, lower_is_symlink, lower_readlink) {
        Ok(p) => p,
        Err(e) => {
            let err = match e {
                VfsError::NotFound(_) => VfsError::NotFound(path.to_owned()),
                other => other,
            };
            return Err(err);
        },
    };
    let ghost segs = segments_of(resolved@);
    proof {
        assert forall|links: spec_fn(Seq<char>) -> Option<Result<Seq<char>, VfsError>>|
            #[trigger] answers_as(links, *lower_is_symlink, *lower_readlink) implies resolve_spec(
            old_view,
            normalized_absolute(path@),
            false,
            MAX_SYMLINK_DEPTH as nat,
            links,
        ) == Ok::<Seq<Seq<char>>, ResolveFault>(segs) by {
            let s = resolve_spec(old_view, norm@, false, MAX_SYMLINK_DEPTH as nat, links);
            if let Ok(x) = s {
                lemma_segments_of_absolute(x);
            }
        }
    }
    let kind = match tree.descend(resolved.as_str()) {
        Descend::Found(UpperNode::Dir { .. }) => 0u8,
        Descend::Found(_) => 1u8,
        Descend::NotDir => 2u8,
        _ => 3u8,
    };
    if kind == 0 {
        return Err(VfsError::IsADirectory(path.to_owned()));
    }
    if kind == 2 {
        return Err(VfsError::NotADirectory(path.to_owned()));
    }
    if kind == 1 {
        let present = lower_exists(resolved.as_str());
        if present {
            tree.put_whiteout(resolved.as_str(), lower_mode);
            proof {
                lemma_found_prefix_clear(old_view, segs);
                assert(whiteout_put(old_view, tree@, segs, *lower_mode));
                if segs.len() > 0 {
                    let made = choose|made: Seq<NodeView>| {
                        &&& scaffold_ok(old_view, segs.drop_last(), made, *lower_mode, Seq::<Seq<char>>::empty())
                        &&& #[trigger] replace_at(ensure_at(old_view, segs.drop_last(), made), segs, NodeView::Whiteout) == tree@
                    };
                    lemma_put_whiteout_blocks(old_view, segs, made, *lower_mode, segs);
                }
                assert(probed(*lower_exists, resolved@, true));
            }
        } else {
            tree.detach(resolved.as_str());
            proof {
                if segs.len() > 0 {
                    lemma_detach_hides(old_view, segs);
                }
                assert(probed(*lower_exists, resolved@, false));
            }
        }
        return Ok(());
    }
    let lower = lower_kind(resolved.as_str());
    proof {
        assert(kind_probed(*lower_kind, resolved@, lower));
    }
    match lower {
        Some(NodeType::Directory) => Err(VfsError::IsADirectory(path.to_owned())),
        Some(_) => {
            tree.put_whiteout(resolved.as_str(), lower_mode);
            proof {
                if segs.len() > 0 && prefix_clear(old_view, segs.drop_last()) {
                    let made = choose|made: Seq<NodeView>| {
                        &&& scaffold_ok(old_view, segs.drop_last(), made, *lower_mode, Seq::<Seq<char>>::empty())
                        &&& #[trigger] replace_at(ensure_at(old_view, segs.drop_last(), made), segs, NodeView::Whiteout) == tree@
                    };
                    lemma_put_whiteout_blocks(old_view, segs, made, *lower_mode, segs);
                }
            }
            Ok(())
        },
        None => Err(VfsError::NotFound(path.to_owned())),
    }
}

/// The lower-layer read probe answered `r` for a path spelled `path`.
pub open spec fn read_probed<Rd: Fn(&str) -> Result<Vec<u8>, VfsError>>(
    f: Rd,
    path: Seq<char>,
    r: Result<Vec<u8>, VfsError>,
) -> bool {
    exists|p: &str| p@ == path && #[trigger] call_ensures(f, (p,), r)
}

/// What `read_file` answers once the path resolved to `segs`: an upper
/// file gives its content and an upper directory refuses; a whiteout, a
/// symlink left unresolved or a file above the path is `NotFound`; with
/// no upper entry the lower layer's answer stands, or `NotFound` when the
/// lower layer does not have the path.
pub open spec fn read_outcome<E: Fn(&str) -> bool, Rd: Fn(&str) -> Result<Vec<u8>, VfsError>>(
    r: Result<Vec<u8>, VfsError>,
    cs: Seq<(Seq<char>, NodeView)>,
    segs: Seq<Seq<char>>,
    path: Seq<char>,
    lower_exists: E,
    lower_read: Rd,
) -> bool {
    let at = absolute_of(segs);
    match descend_in(cs, segs) {
        DescendView::Found(NodeView::File { content, .. }) => r matches Ok(v) && v@ == content,
        DescendView::Found(NodeView::Dir { .. }) => r matches Err(VfsError::IsADirectory(p)) && p@ == path,
        DescendView::Missing => {
            ||| probed(lower_exists, at, false) && (r matches Err(VfsError::NotFound(p)) && p@ == path)
            ||| probed(lower_exists, at, true) && read_probed(lower_read, at, r)
        },
        _ => r matches Err(VfsError::NotFound(p)) && p@ == path,
    }
}

/// Reads the file at `path`, following symlinks of both layers: the upper
/// tree answers where it has content, the lower layer elsewhere.
pub fn read_file<S, R, E, Rd>(
    tree: &OverlayTree,
    path: &str,
    lower_is_symlink: &S,
    lower_readlink: &R,
    lower_exists: &E,
    lower_read: &Rd,
) -> (r: Result<Vec<u8>, VfsError>) where
    S: Fn(&str) -> bool,
    R: Fn(&str) -> Result<String, VfsError>,
    E: Fn(&str) -> bool,
    Rd: Fn(&str) -> Result<Vec<u8>, VfsError>,

    requires
        tree.wf(),
        forall|p: &str| lower_is_symlink.requires((p,)),
        forall|p: &str| lower_readlink.requires((p,)),
        forall|p: &str| lower_exists.requires((p,)),
        forall|p: &str| lower_read.requires((p,)),
    ensures
        !starts_with_slash(path@) ==> (r matches Err(e) && not_absolute_error(path@, e)),
        forall|links: spec_fn(Seq<char>) -> Option<Result<Seq<char>, VfsError>>|
            #[trigger] answers_as(links, *lower_is_symlink, *lower_readlink) && starts_with_slash(path@) ==> match resolve_spec(
                tree@,
                normalized_absolute(path@),
                true,
                MAX_SYMLINK_DEPTH as nat,
                links,
            ) {
                Err(f) => r matches Err(e) && outcome_is(Err::<String, VfsError>(e), Err(f)),
                Ok(segs) => read_outcome(r, tree@, segs, path@, *lower_exists, *lower_read),
            },
{
    let norm = match normalize(path) {
        Ok(p) => p,
        Err(e) => {
            return Err(e);
        },
    };
    let resolved = match resolve_path_depth(tree, norm.as_str(), true, MAX_SYMLINK_DEPTH, lower_is_symlink, lower_readlink) {
        Ok(p) => p,
        Err(e) => {
            return Err(e);
        },
    };
    let ghost segs = segments_of(resolved@);
    proof {
        assert forall|links: spec_fn(Seq<char>) -> Option<Result<Seq<char>, VfsError>>|
            #[trigger] answers_as(links, *lower_is_symlink, *lower_readlink) implies resolve_spec(
            tree@,
            normalized_absolute(path@),
            true,
            MAX_SYMLINK_DEPTH as nat,
            links,
        ) == Ok::<Seq<Seq<char>>, ResolveFault>(segs) by {
            let s = resolve_spec(tree@, norm@, true, MAX_SYMLINK_DEPTH as nat, links);
            if let Ok(x) = s {
                lemma_segments_of_absolute(x);
            }
        }
    }
    match resolve_layer(tree, resolved.as_str(), lower_exists) {
        LayerResult::Whiteout | LayerResult::NotFound => Err(VfsError::NotFound(path.to_owned())),
        LayerResult::Upper => match tree.descend(resolved.as_str()) {
            Descend::Found(UpperNode::File { content, .. }) => {
                let v = content.clone();
                proof {
                    assert(v@ =~= content@);
                }
                Ok(v)
            },
            Descend::Found(UpperNode::Dir { .. }) => Err(VfsError::IsADirectory(path.to_owned())),
            _ => Err(VfsError::NotFound(path.to_owned())),
        },
        LayerResult::Lower => {
            let r = lower_read(resolved.as_str());
            proof {
                assert(read_probed(*lower_read, resolved@, r));
            }
            r
        },
    }
}

/// The component walk of a resolution passes straight through a path
/// whose proper prefixes are upper directories and which holds a file.
proof fn lemma_walk_through_upper(
    cs: Seq<(Seq<char>, NodeView)>,
    segs: Seq<Seq<char>>,
    i: int,
    orig: Seq<char>,
    depth: nat,
    links: spec_fn(Seq<char>) -> Option<Result<Seq<char>, VfsError>>,
)
    requires
        0 <= i <= segs.len(),
        forall|k: int| 1 <= k < segs.len() ==> #[trigger] descend_in(cs, segs.take(k)) matches DescendView::Found(NodeView::Dir { .. }),
        descend_in(cs, segs) matches DescendView::Found(NodeView::File { .. }),
    ensures
        walk_spec(cs, segs, i, segs.take(i), orig, true, depth, links) == Ok::<Seq<Seq<char>>, ResolveFault>(segs),
    decreases segs.len() - i,
{
    if i == segs.len() {
        assert(segs.take(i) =~= segs);
    } else {
        let cand = segs.take(i).push(segs[i]);
        assert(cand =~= segs.take(i + 1));
        if i + 1 < segs.len() {
            assert(descend_in(cs, segs.take(i + 1)) matches DescendView::Found(NodeView::Dir { .. }));
        } else {
            assert(segs.take(i + 1) =~= segs);
        }
        lemma_walk_through_upper(cs, segs, i + 1, orig, depth, links);
    }
}

/// The upper tree holds a file with content `c` at `segs`, below upper
/// directories only.
pub open spec fn holds_file_at(cs: Seq<(Seq<char>, NodeView)>, segs: Seq<Seq<char>>, c: Seq<u8>) -> bool {
    &&& forall|k: int|
        1 <= k < segs.len() ==> (#[trigger] descend_in(cs, segs.take(k)) matches DescendView::Found(NodeView::Dir { .. }))
    &&& file_content(descend_in(cs, segs)) == Some(c)
}

/// The content of the file there, if a file is there.
pub open spec fn file_content(d: DescendView) -> Option<Seq<u8>> {
    match d {
        DescendView::Found(NodeView::File { content, .. }) => Some(content),
        _ => None,
    }
}

/// `b` is `a` with at most its mode or time changed: the same kind, the
/// same file bytes, the same directory children.
pub open spec fn same_body(a: NodeView, b: NodeView) -> bool {
    match a {
        NodeView::File { content, .. } => b matches NodeView::File { content: c2, .. } && c2 == content,
        NodeView::Dir { children, .. } => b matches NodeView::Dir { children: ch2, .. } && ch2 == children,
        NodeView::Symlink { .. } => b is Symlink,
        NodeView::Whiteout => b is Whiteout,
    }
}

/// Every file that the upper tree `old` holds below directories is still
/// held in `new`, at the same path, with the same bytes.
pub open spec fn keeps_files(old: Seq<(Seq<char>, NodeView)>, new: Seq<(Seq<char>, NodeView)>) -> bool {
    forall|q: Seq<Seq<char>>, c: Seq<u8>| #[trigger] holds_file_at(old, q, c) ==> holds_file_at(new, q, c)
}

/// Replacing a node by one with the same body keeps every file.
pub proof fn lemma_replace_keeps_files(cs: Seq<(Seq<char>, NodeView)>, segs: Seq<Seq<char>>, node: NodeView, q: Seq<Seq<char>>, c: Seq<u8>)
    requires
        wf_children(cs),
        segs.len() > 0,
        descend_in(cs, segs) is Found,
        same_body(descend_in(cs, segs)->Found_0, node),
        holds_file_at(cs, q, c),
    ensures
        holds_file_at(replace_at(cs, segs, node), q, c),
{
    let n = descend_in(cs, segs)->Found_0;
    let new = replace_at(cs, segs, node);
    lemma_found_is_located(cs, segs);
    if diverge(segs, q) {
        lemma_replace_at_keeps_apart(cs, segs, node, q);
    } else if q.is_prefix_of(segs) && q.len() < segs.len() {
        lemma_found_dirs_above(cs, segs);
        assert(segs.take(q.len() as int) =~= q);
    } else {
        assert(segs.is_prefix_of(q));
        lemma_descend_replace_at(cs, segs, node, q);
        lemma_descend_split(cs, segs, q);
        assert forall|k: int| 1 <= k < q.len() implies (#[trigger] descend_in(new, q.take(k)) matches DescendView::Found(
            NodeView::Dir { .. },
        )) by {
            if k < segs.len() {
                lemma_replace_at_keeps_dirs(cs, segs, node, k);
                assert(segs.take(k) =~= q.take(k));
            } else {
                assert(segs.is_prefix_of(q.take(k)));
                lemma_descend_replace_at(cs, segs, node, q.take(k));
                lemma_descend_split(cs, segs, q.take(k));
                assert(descend_in(cs, q.take(k)) matches DescendView::Found(NodeView::Dir { .. }));
            }
        }
    }
}

/// A change of mode or time where `edit_outcome` allows it keeps every
/// file.
pub proof fn lemma_edit_keeps_files(
    old: Seq<(Seq<char>, NodeView)>,
    new: Seq<(Seq<char>, NodeView)>,
    path: Seq<char>,
    e: Edit,
    r: Result<(), VfsError>,
)
    requires
        wf_children(old),
        edit_outcome(old, new, path, e, r),
        !(e is Append),
    ensures
        keeps_files(old, new),
{
    let segs = segments_of(path);
    if segs.len() > 0 {
        if let LocateView::At(n) = locate(old, segs) {
            if let Some(n2) = edited(n, e) {
                lemma_located_is_found(old, segs);
                assert forall|q: Seq<Seq<char>>, c: Seq<u8>| #[trigger] holds_file_at(old, q, c) implies holds_file_at(new, q, c) by {
                    lemma_replace_keeps_files(old, segs, n2, q, c);
                }
            }
        }
    }
}

/// Setting the time of a node (`set_mtime`): a file, directory or symlink
/// at the path succeeds, and its metadata afterwards is the old one with
/// the new time; a whiteout there is refused with `InvalidPath` and
/// nothing changes.
pub proof fn lemma_set_mtime_then_meta(
    old: Seq<(Seq<char>, NodeView)>,
    new: Seq<(Seq<char>, NodeView)>,
    path: Seq<char>,
    t: SystemTime,
    r: Result<(), VfsError>,
)
    requires
        wf_children(old),
        edit_outcome(old, new, path, Edit::Mtime(t), r),
        descend_in(old, segments_of(path)) is Found,
    ensures
        descend_in(old, segments_of(path)) matches DescendView::Found(NodeView::Whiteout) ==> (r matches Err(
            VfsError::InvalidPath(p),
        ) && p@ == path) && new == old,
        !(descend_in(old, segments_of(path)) matches DescendView::Found(NodeView::Whiteout)) ==> r is Ok && ({
            let m = meta_view(descend_in(old, segments_of(path))->Found_0)->0;
            descend_in(new, segments_of(path)) matches DescendView::Found(n2) && meta_view(n2) == Some(
                Metadata { node_type: m.node_type, size: m.size, mode: m.mode, mtime: t, file_id: m.file_id },
            )
        }),
{
    let segs = segments_of(path);
    lemma_found_is_located(old, segs);
    let n = descend_in(old, segs)->Found_0;
    if let Some(n2) = edited(n, Edit::Mtime(t)) {
        lemma_descend_replace_at(old, segs, n2, segs);
        assert(segs.skip(segs.len() as int) =~= Seq::<Seq<char>>::empty());
    }
}

/// Attaching a file or symlink at `s` keeps every file held elsewhere.
pub proof fn lemma_attach_keeps_files(cs: Seq<(Seq<char>, NodeView)>, s: Seq<Seq<char>>, node: NodeView, q: Seq<Seq<char>>, c: Seq<u8>)
    requires
        wf_children(cs),
        s.len() > 0,
        !(node is Dir),
        attach_fault(cs, s, node) is None,
        holds_file_at(cs, q, c),
        q != s,
    ensures
        holds_file_at(replace_at(cs, s, node), q, c),
{
    if diverge(s, q) {
        lemma_replace_at_keeps_apart(cs, s, node, q);
    } else if q.is_prefix_of(s) {
        assert(q.len() < s.len()) by {
            if q.len() == s.len() {
                assert(q =~= s);
            }
        }
        assert(s.drop_last().take(q.len() as int) =~= q);
        lemma_walk_dirs(cs, s.drop_last(), q.len() as int);
    } else {
        assert(s.is_prefix_of(q) && s.len() < q.len()) by {
            if s.len() == q.len() {
                assert(q =~= s);
            }
        }
        assert(q.take(s.len() as int) =~= s);
        lemma_found_is_located(cs, s);
    }
}

/// Creating directories along `p`, where nothing stops it, keeps every
/// file.
pub proof fn lemma_ensure_keeps_files(cs: Seq<(Seq<char>, NodeView)>, p: Seq<Seq<char>>, made: Seq<NodeView>)
    requires
        wf_children(cs),
        ensure_fault(cs, p) is None,
    ensures
        keeps_files(cs, ensure_at(cs, p, made)),
{
    assert forall|q: Seq<Seq<char>>, c: Seq<u8>| #[trigger] holds_file_at(cs, q, c) implies holds_file_at(ensure_at(cs, p, made), q, c) by {
        lemma_ensure_passes_no_file(cs, p, q);
        lemma_ensure_at_keeps_apart(cs, p, made, q);
    }
}

/// Attaching a file below an existing directory chain leaves the tree
/// holding that file there.
pub proof fn lemma_attach_holds_file(cs: Seq<(Seq<char>, NodeView)>, segs: Seq<Seq<char>>, content: Seq<u8>, mode: u32, mtime: SystemTime)
    requires
        wf_children(cs),
        segs.len() > 0,
        attach_fault(cs, segs, NodeView::File { content, mode, mtime }) is None,
    ensures
        holds_file_at(replace_at(cs, segs, NodeView::File { content, mode, mtime }), segs, content),
{
    let node = NodeView::File { content, mode, mtime };
    let new = replace_at(cs, segs, node);
    lemma_attach_then_descend(cs, segs, node, segs);
    assert forall|k: int| 1 <= k < segs.len() implies #[trigger] descend_in(new, segs.take(k)) matches DescendView::Found(
        NodeView::Dir { .. },
    ) by {
        lemma_replace_at_keeps_dirs(cs, segs, node, k);
    }
}

/// Read after write: where the upper tree holds a file below upper
/// directories (as `write_file` leaves it at its write target), resolving
/// that path ends there whatever the lower layer holds, and what
/// `read_file` answers there is the content written.
pub proof fn lemma_read_after_write<E: Fn(&str) -> bool, Rd: Fn(&str) -> Result<Vec<u8>, VfsError>>(
    cs: Seq<(Seq<char>, NodeView)>,
    segs: Seq<Seq<char>>,
    content: Seq<u8>,
    depth: nat,
    links: spec_fn(Seq<char>) -> Option<Result<Seq<char>, VfsError>>,
    path: Seq<char>,
    r: Result<Vec<u8>, VfsError>,
    lower_exists: E,
    lower_read: Rd,
)
    requires
        clean_segments(segs),
        slash_free(segs),
        depth > 0,
        holds_file_at(cs, segs, content),
    ensures
        resolve_spec(cs, absolute_of(segs), true, depth, links) == Ok::<Seq<Seq<char>>, ResolveFault>(segs),
        read_outcome(r, cs, segs, path, lower_exists, lower_read) ==> (r matches Ok(v) && v@ == content),
{
    lemma_segments_of_absolute(segs);
    lemma_resolve_dots_of_clean(segs);
    assert(segs.take(0) =~= Seq::<Seq<char>>::empty());
    lemma_walk_through_upper(cs, segs, 0, absolute_of(segs), depth, links);
}

/// What `stat` answers once the path resolved to `segs`: upper content
/// gives its metadata; a whiteout at or above it, or a file above it, is
/// `NotFound`; with no upper entry the lower layer's `stat` stands, or
/// `NotFound` when the lower layer does not have the path.
pub open spec fn stat_outcome<E: Fn(&str) -> bool, St: Fn(&str) -> Result<Metadata, VfsError>>(
    r: Result<Metadata, VfsError>,
    cs: Seq<(Seq<char>, NodeView)>,
    segs: Seq<Seq<char>>,
    path: Seq<char>,
    lower_exists: E,
    lower_stat: St,
) -> bool {
    let at = absolute_of(segs);
    match descend_in(cs, segs) {
        DescendView::Found(NodeView::Whiteout) => r matches Err(VfsError::NotFound(p)) && p@ == path,
        DescendView::Found(n) => r == Ok::<Metadata, VfsError>(meta_view(n)->0),
        DescendView::Missing => {
            ||| probed(lower_exists, at, false) && (r matches Err(VfsError::NotFound(p)) && p@ == path)
            ||| probed(lower_exists, at, true) && probed_result(lower_stat, at, r)
        },
        _ => r matches Err(VfsError::NotFound(p)) && p@ == path,
    }
}

/// Metadata of the node at `path`, following symlinks of both layers.
pub fn stat<S, R, E, St>(
    tree: &OverlayTree,
    path: &str,
    lower_is_symlink: &S,
    lower_readlink: &R,
    lower_exists: &E,
    lower_stat: &St,
) -> (r: Result<Metadata, VfsError>) where
    S: Fn(&str) -> bool,
    R: Fn(&str) -> Result<String, VfsError>,
    E: Fn(&str) -> bool,
    St: Fn(&str) -> Result<Metadata, VfsError>,

    requires
        tree.wf(),
        forall|p: &str| lower_is_symlink.requires((p,)),
        forall|p: &str| lower_readlink.requires((p,)),
        forall|p: &str| lower_exists.requires((p,)),
        forall|p: &str| lower_stat.requires((p,)),
    ensures
        !starts_with_slash(path@) ==> (r matches Err(e) && not_absolute_error(path@, e)),
        forall|links: spec_fn(Seq<char>) -> Option<Result<Seq<char>, VfsError>>|
            #[trigger] answers_as(links, *lower_is_symlink, *lower_readlink) && starts_with_slash(path@) ==> match resolve_spec(
                tree@,
                normalized_absolute(path@),
                true,
                MAX_SYMLINK_DEPTH as nat,
                links,
            ) {
                Err(f) => r matches Err(e) && outcome_is(Err::<String, VfsError>(e), Err(f)),
                Ok(segs) => stat_outcome(r, tree@, segs, path@, *lower_exists, *lower_stat),
            },
{
    let norm = match normalize(path) {
        Ok(p) => p,
        Err(e) => {
            return Err(e);
        },
    };
    let resolved = match resolve_path_depth(tree, norm.as_str(), true, MAX_SYMLINK_DEPTH, lower_is_symlink, lower_readlink) {
        Ok(p) => p,
        Err(e) => {
            return Err(e);
        },
    };
    let ghost segs = segments_of(resolved@);
    proof {
        assert forall|links: spec_fn(Seq<char>) -> Option<Result<Seq<char>, VfsError>>|
            #[trigger] answers_as(links, *lower_is_symlink, *lower_readlink) implies resolve_spec(
            tree@,
            normalized_absolute(path@),
            true,
            MAX_SYMLINK_DEPTH as nat,
            links,
        ) == Ok::<Seq<Seq<char>>, ResolveFault>(segs) by {
            let s = resolve_spec(tree@, norm@, true, MAX_SYMLINK_DEPTH as nat, links);
            if let Ok(x) = s {
                lemma_segments_of_absolute(x);
            }
        }
    }
    match resolve_layer(tree, resolved.as_str(), lower_exists) {
        LayerResult::Whiteout | LayerResult::NotFound => Err(VfsError::NotFound(path.to_owned())),
        LayerResult::Upper => match tree.meta(resolved.as_str()) {
            Some(m) => Ok(m),
            None => Err(VfsError::NotFound(path.to_owned())),
        },
        LayerResult::Lower => {
            let r = lower_stat(resolved.as_str());
            proof {
                assert(probed_result(*lower_stat, resolved@, r));
            }
            r
        },
    }
}

/// Removes the directory at `path` with everything below it: mid-path
/// symlinks are followed and the final component is not. A directory the
/// lower layer also has is hidden by one whiteout leaf; an upper-only one
/// is detached. The root cannot be removed. On success the path shows no
/// content in the upper tree any more; on failure the tree is unchanged.
pub fn remove_dir_all<S, R, E, Ls, M>(
    tree: &mut OverlayTree,
    path: &str,
    lower_is_symlink: &S,
    lower_readlink: &R,
    lower_exists: &E,
    lower_lstat: &Ls,
    lower_mode: &M,
) -> (r: Result<(), VfsError>) where
    S: Fn(&str) -> bool,
    R: Fn(&str) -> Result<String, VfsError>,
    E: Fn(&str) -> bool,
    Ls: Fn(&str) -> Result<Metadata, VfsError>,
    M: Fn(&str) -> Option<u32>,

    requires
        old(tree).wf(),
        forall|p: &str| lower_is_symlink.requires((p,)),
        forall|p: &str| lower_readlink.requires((p,)),
        forall|p: &str| lower_exists.requires((p,)),
        forall|p: &str| lower_lstat.requires((p,)),
        forall|p: &str| lower_mode.requires((p,)),
    ensures
        final(tree).wf(),
        r is Err ==> final(tree)@ == old(tree)@,
        !starts_with_slash(path@) ==> (r matches Err(e) && not_absolute_error(path@, e)),
        starts_with_slash(path@) && segments_of(normalized_absolute(path@)).len() == 0 ==> (r matches Err(
            VfsError::InvalidPath(m),
        ) && m@ == "cannot remove root"@),
        starts_with_slash(path@) && segments_of(normalized_absolute(path@)).len() > 0 && hidden_at(
            descend_in(old(tree)@, segments_of(normalized_absolute(path@))),
        ) ==> (r matches Err(VfsError::NotFound(p)) && p@ == path@),
        r is Ok ==> exists|segs: Seq<Seq<char>>|
            (whiteout_put(old(tree)@, final(tree)@, segs, *lower_mode) || final(tree)@ == remove_at(old(tree)@, segs))
                && !has_content(#[trigger] descend_in(final(tree)@, segs)),
        forall|links: spec_fn(Seq<char>) -> Option<Result<Seq<char>, VfsError>>|
            #[trigger] answers_as(links, *lower_is_symlink, *lower_readlink) && starts_with_slash(path@)
                && segments_of(normalized_absolute(path@)).len() > 0 && !hidden_at(
                descend_in(old(tree)@, segments_of(normalized_absolute(path@))),
            ) ==> match resolve_spec(old(tree)@, normalized_absolute(path@), false, MAX_SYMLINK_DEPTH as nat, links) {
                Err(f) => remove_resolve_error(r, f, path@),
                Ok(segs) => remove_dir_all_outcome(r, old(tree)@, final(tree)@, path@, segs, *lower_exists, *lower_lstat, *lower_mode),
            },
{
    let norm = match normalize(path) {
        Ok(p) => p,
        Err(e) => {
            return Err(e);
        },
    };
    if path_components(norm.as_str()).len() == 0 {
        return Err(VfsError::InvalidPath(String::from_str("cannot remove root")));
    }
    if tree.descend(norm.as_str()).is_blocked_or_whiteout() {
        return Err(VfsError::NotFound(path.to_owned()));
    }
    let ghost old_view = tree@;
    let resolved = match resolve_path_depth(&*tree, norm.as_str(), false, MAX_SYMLINK_DEPTH, lower_is_symlink, lower_readlink) {
        Ok(p) => p,
        Err(e) => {
            let err = match e {
                VfsError::NotFound(_) => VfsError::NotFound(path.to_owned()),
                other => other,
            };
            return Err(err);
        },
    };
    let ghost segs = segments_of(resolved@);
    proof {
        assert forall|links: spec_fn(Seq<char>) -> Option<Result<Seq<char>, VfsError>>|
            #[trigger] answers_as(links, *lower_is_symlink, *lower_readlink) implies resolve_spec(
            old_view,
            normalized_absolute(path@),
            false,
            MAX_SYMLINK_DEPTH as nat,
            links,
        ) == Ok::<Seq<Seq<char>>, ResolveFault>(segs) by {
            let s = resolve_spec(old_view, norm@, false, MAX_SYMLINK_DEPTH as nat, links);
            if let Ok(x) = s {
                lemma_segments_of_absolute(x);
            }
        }
    }
    let lres = lstat_overlay(&*tree, resolved.as_str(), path, lower_exists, lower_lstat);
    let ghost lr = lres;
    proof {
        assert(resolved@ == absolute_of(segs));
        assert(lstat_answer(lr, old_view, segs, path@, *lower_exists, *lower_lstat));
    }
    let m = match lres {
        Ok(m) => m,
        Err(e) => {
            return Err(e);
        },
    };
    if m.node_type != NodeType::Directory {
        return Err(VfsError::NotADirectory(path.to_owned()));
    }
    let present = lower_exists(resolved.as_str());
    proof {
        assert(probed(*lower_exists, resolved@, present));
    }
    if present {
        tree.put_whiteout(resolved.as_str(), lower_mode);
        proof {
            if segs.len() > 0 && prefix_clear(old_view, segs.drop_last()) {
                let made = choose|made: Seq<NodeView>| {
                    &&& scaffold_ok(old_view, segs.drop_last(), made, *lower_mode, Seq::<Seq<char>>::empty())
                    &&& #[trigger] replace_at(ensure_at(old_view, segs.drop_last(), made), segs, NodeView::Whiteout) == tree@
                };
                lemma_put_whiteout_blocks(old_view, segs, made, *lower_mode, segs);
            } else if descend_in(old_view, segs) is Found {
                lemma_found_prefix_clear(old_view, segs);
            }
        }
    } else {
        tree.detach(resolved.as_str());
        proof {
            if segs.len() > 0 {
                lemma_detach_hides(old_view, segs);
            }
        }
    }
    Ok(())
}

/// Removes the empty directory at `path`: as `remove_dir_all`, except that
/// a directory whose merged listing (both layers, whiteouts applied) has
/// any entry is `DirectoryNotEmpty`. On success the listing was empty and
/// the path shows no content in the upper tree any more; on failure the
/// tree is unchanged.
pub fn remove_dir<S, R, E, Ls, Ld, M>(
    tree: &mut OverlayTree,
    path: &str,
    lower_is_symlink: &S,
    lower_readlink: &R,
    lower_exists: &E,
    lower_lstat: &Ls,
    lower_readdir: &Ld,
    lower_mode: &M,
) -> (r: Result<(), VfsError>) where
    S: Fn(&str) -> bool,
    R: Fn(&str) -> Result<String, VfsError>,
    E: Fn(&str) -> bool,
    Ls: Fn(&str) -> Result<Metadata, VfsError>,
    Ld: Fn(&str) -> Result<Vec<DirEntry>, VfsError>,
    M: Fn(&str) -> Option<u32>,

    requires
        old(tree).wf(),
        forall|p: &str| lower_is_symlink.requires((p,)),
        forall|p: &str| lower_readlink.requires((p,)),
        forall|p: &str| lower_exists.requires((p,)),
        forall|p: &str| lower_lstat.requires((p,)),
        forall|p: &str| lower_readdir.requires((p,)),
        forall|p: &str| lower_mode.requires((p,)),
    ensures
        final(tree).wf(),
        r is Err ==> final(tree)@ == old(tree)@,
        !starts_with_slash(path@) ==> (r matches Err(e) && not_absolute_error(path@, e)),
        starts_with_slash(path@) && segments_of(normalized_absolute(path@)).len() == 0 ==> (r matches Err(
            VfsError::InvalidPath(m),
        ) && m@ == "cannot remove root"@),
        starts_with_slash(path@) && segments_of(normalized_absolute(path@)).len() > 0 && hidden_at(
            descend_in(old(tree)@, segments_of(normalized_absolute(path@))),
        ) ==> (r matches Err(VfsError::NotFound(p)) && p@ == path@),
        r is Ok ==> merged_somewhere(old(tree)@, Seq::<DirEntry>::empty()),
        r is Ok ==> exists|segs: Seq<Seq<char>>|
            (whiteout_put(old(tree)@, final(tree)@, segs, *lower_mode) || final(tree)@ == remove_at(old(tree)@, segs))
                && !has_content(#[trigger] descend_in(final(tree)@, segs)),
        forall|links: spec_fn(Seq<char>) -> Option<Result<Seq<char>, VfsError>>|
            #[trigger] answers_as(links, *lower_is_symlink, *lower_readlink) && starts_with_slash(path@)
                && segments_of(normalized_absolute(path@)).len() > 0 && !hidden_at(
                descend_in(old(tree)@, segments_of(normalized_absolute(path@))),
            ) ==> match resolve_spec(old(tree)@, normalized_absolute(path@), false, MAX_SYMLINK_DEPTH as nat, links) {
                Err(f) => remove_resolve_error(r, f, path@),
                Ok(segs) => remove_dir_all_outcome(r, old(tree)@, final(tree)@, path@, segs, *lower_exists, *lower_lstat, *lower_mode)
                    || (r matches Err(VfsError::DirectoryNotEmpty(p)) && p@ == path@ && final(tree)@ == old(tree)@),
            },
{
    let norm = match normalize(path) {
        Ok(p) => p,
        Err(e) => {
            return Err(e);
        },
    };
    if path_components(norm.as_str()).len() == 0 {
        return Err(VfsError::InvalidPath(String::from_str("cannot remove root")));
    }
    if tree.descend(norm.as_str()).is_blocked_or_whiteout() {
        return Err(VfsError::NotFound(path.to_owned()));
    }
    let ghost old_view = tree@;
    let resolved = match resolve_path_depth(&*tree, norm.as_str(), false, MAX_SYMLINK_DEPTH, lower_is_symlink, lower_readlink) {
        Ok(p) => p,
        Err(e) => {
            let err = match e {
                VfsError::NotFound(_) => VfsError::NotFound(path.to_owned()),
                other => other,
            };
            return Err(err);
        },
    };
    let ghost segs = segments_of(resolved@);
    proof {
        assert forall|links: spec_fn(Seq<char>) -> Option<Result<Seq<char>, VfsError>>|
            #[trigger] answers_as(links, *lower_is_symlink, *lower_readlink) implies resolve_spec(
            old_view,
            normalized_absolute(path@),
            false,
            MAX_SYMLINK_DEPTH as nat,
            links,
        ) == Ok::<Seq<Seq<char>>, ResolveFault>(segs) by {
            let s = resolve_spec(old_view, norm@, false, MAX_SYMLINK_DEPTH as nat, links);
            if let Ok(x) = s {
                lemma_segments_of_absolute(x);
            }
        }
    }
    let lres = lstat_overlay(&*tree, resolved.as_str(), path, lower_exists, lower_lstat);
    let ghost lr = lres;
    proof {
        assert(resolved@ == absolute_of(segs));
        assert(lstat_answer(lr, old_view, segs, path@, *lower_exists, *lower_lstat));
    }
    let m = match lres {
        Ok(m) => m,
        Err(e) => {
            return Err(e);
        },
    };
    if m.node_type != NodeType::Directory {
        return Err(VfsError::NotADirectory(path.to_owned()));
    }
    let listing = readdir_merged(&*tree, resolved.as_str(), lower_is_symlink, lower_readlink, lower_exists, lower_readdir);
    if listing.len() > 0 {
        return Err(VfsError::DirectoryNotEmpty(path.to_owned()));
    }
    proof {
        assert(listing@ =~= Seq::<DirEntry>::empty());
    }
    let present = lower_exists(resolved.as_str());
    proof {
        assert(probed(*lower_exists, resolved@, present));
    }
    if present {
        tree.put_whiteout(resolved.as_str(), lower_mode);
        proof {
            if segs.len() > 0 && prefix_clear(old_view, segs.drop_last()) {
                let made = choose|made: Seq<NodeView>| {
                    &&& scaffold_ok(old_view, segs.drop_last(), made, *lower_mode, Seq::<Seq<char>>::empty())
                    &&& #[trigger] replace_at(ensure_at(old_view, segs.drop_last(), made), segs, NodeView::Whiteout) == tree@
                };
                lemma_put_whiteout_blocks(old_view, segs, made, *lower_mode, segs);
            } else if descend_in(old_view, segs) is Found {
                lemma_found_prefix_clear(old_view, segs);
            }
        }
    } else {
        tree.detach(resolved.as_str());
        proof {
            if segs.len() > 0 {
                lemma_detach_hides(old_view, segs);
            }
        }
    }
    Ok(())
}

/// The outcome of `remove_dir_all` once the path resolved (without
/// following the final component) to `segs`: what `lstat` there says
/// decides; a directory is hidden by a whiteout when the lower layer also
/// has it and detached otherwise, anything else is `NotADirectory`.
pub open spec fn remove_dir_all_outcome<E: Fn(&str) -> bool, Ls: Fn(&str) -> Result<Metadata, VfsError>, M: Fn(&str) -> Option<u32>>(
    r: Result<(), VfsError>,
    old: Seq<(Seq<char>, NodeView)>,
    new: Seq<(Seq<char>, NodeView)>,
    path: Seq<char>,
    segs: Seq<Seq<char>>,
    lower_exists: E,
    lower_lstat: Ls,
    lower_mode: M,
) -> bool {
    let at = absolute_of(segs);
    exists|m: Result<Metadata, VfsError>| {
        &&& #[trigger] lstat_answer(m, old, segs, path, lower_exists, lower_lstat)
        &&& match m {
            Err(e) => r == Err::<(), VfsError>(e),
            Ok(md) => if md.node_type != NodeType::Directory {
                r matches Err(VfsError::NotADirectory(p)) && p@ == path
            } else {
                &&& r is Ok
                &&& (probed(lower_exists, at, true) && whiteout_put(old, new, segs, lower_mode))
                    || (probed(lower_exists, at, false) && new == remove_at(old, segs))
            },
        }
    }
}

/// What `lstat` through the overlay may answer at `segs` (the errors for
/// `path`), as `lstat_overlay` states it.
pub open spec fn lstat_answer<E: Fn(&str) -> bool, Ls: Fn(&str) -> Result<Metadata, VfsError>>(
    r: Result<Metadata, VfsError>,
    cs: Seq<(Seq<char>, NodeView)>,
    segs: Seq<Seq<char>>,
    path: Seq<char>,
    lower_exists: E,
    lower_lstat: Ls,
) -> bool {
    let at = absolute_of(segs);
    match descend_in(cs, segs) {
        DescendView::Found(NodeView::Whiteout) => r matches Err(VfsError::NotFound(p)) && p@ == path,
        DescendView::Found(n) => r == Ok::<Metadata, VfsError>(meta_view(n)->0),
        DescendView::Blocked => r matches Err(VfsError::NotFound(p)) && p@ == path,
        DescendView::NotDir => r matches Err(VfsError::NotADirectory(p)) && p@ == path,
        DescendView::Missing => {
            ||| probed(lower_exists, at, true) && probed_result(lower_lstat, at, r)
            ||| probed(lower_exists, at, false) && (r matches Err(VfsError::NotFound(p)) && p@ == path)
        },
    }
}

/// Where a write to `path` lands after following upper symlinks (the
/// final component only when `follow_final`), as segments; `None` when
/// too many links were followed.
pub open spec fn write_target_of(cs: Seq<(Seq<char>, NodeView)>, path: Seq<char>, follow_final: bool) -> Option<Seq<Seq<char>>> {
    write_target_from(cs, resolve_dots(segments_of(path)), 0, 0, follow_final)
}

/// `ensure_dirs` at `segs` took `old` to `new` with outcome `r`: a file in
/// place of a directory refuses with `NotADirectory` for the prefix that
/// ends there and changes nothing; otherwise every component becomes a
/// directory (resurrected ones with their lower children hidden).
pub open spec fn dirs_ensured<G: Fn(&str) -> Option<Vec<String>>, F: Fn(&str) -> Option<u32>>(
    r: Result<(), VfsError>,
    old: Seq<(Seq<char>, NodeView)>,
    new: Seq<(Seq<char>, NodeView)>,
    segs: Seq<Seq<char>>,
    lower_readdir: G,
    lower_mode: F,
) -> bool {
    match ensure_fault(old, segs) {
        Some(k) => {
            &&& r matches Err(VfsError::NotADirectory(p)) && p@ == absolute_of(segs.take(k + 1 as int))
            &&& new == old
        },
        None => {
            &&& r is Ok
            &&& exists|made: Seq<NodeView>| {
                &&& resurrect_ok(old, segs, made, lower_readdir, lower_mode, Seq::<Seq<char>>::empty())
                &&& #[trigger] ensure_at(old, segs, made) == new
            }
        },
    }
}

/// The rest of `mkdir` once the name is free at `t`: the directories along
/// `t`'s own write target (following a final upper symlink too) are
/// ensured.
pub open spec fn mkdir_rest<G: Fn(&str) -> Option<Vec<String>>, F: Fn(&str) -> Option<u32>>(
    r: Result<(), VfsError>,
    old: Seq<(Seq<char>, NodeView)>,
    new: Seq<(Seq<char>, NodeView)>,
    t: Seq<Seq<char>>,
    lower_readdir: G,
    lower_mode: F,
) -> bool {
    match write_target_of(old, absolute_of(t), true) {
        None => (r matches Err(VfsError::SymlinkLoop(p)) && p@ == absolute_of(t)) && new == old,
        Some(t2) => dirs_ensured(r, old, new, t2, lower_readdir, lower_mode),
    }
}

/// Creates the directory at `path` (no parents needed: missing ones are
/// created too, as upper directories). Mid-path upper symlinks are
/// followed first; a name that exists in either layer (and is not
/// whited out) is `AlreadyExists`; a whited-out name is resurrected.
pub fn mkdir<E, G, M>(tree: &mut OverlayTree, path: &str, lower_exists: &E, lower_readdir: &G, lower_mode: &M) -> (r: Result<(), VfsError>) where
    E: Fn(&str) -> bool,
    G: Fn(&str) -> Option<Vec<String>>,
    M: Fn(&str) -> Option<u32>,

    requires
        old(tree).wf(),
        forall|p: &str| lower_exists.requires((p,)),
        forall|p: &str| lower_readdir.requires((p,)),
        forall|p: &str| lower_mode.requires((p,)),
    ensures
        final(tree).wf(),
        r is Err ==> final(tree)@ == old(tree)@,
        !starts_with_slash(path@) ==> (r matches Err(e) && not_absolute_error(path@, e)),
        starts_with_slash(path@) ==> match write_target_of(old(tree)@, path@, false) {
            None => r matches Err(VfsError::SymlinkLoop(p)) && p@ == path@,
            Some(t) => {
                let d = descend_in(old(tree)@, t);
                if hidden_at(d) {
                    mkdir_rest(r, old(tree)@, final(tree)@, t, *lower_readdir, *lower_mode)
                } else if has_content(d) {
                    r matches Err(VfsError::AlreadyExists(p)) && p@ == path@
                } else {
                    ||| probed(*lower_exists, absolute_of(t), true) && (r matches Err(VfsError::AlreadyExists(p)) && p@ == path@)
                    ||| probed(*lower_exists, absolute_of(t), false) && mkdir_rest(
                        r,
                        old(tree)@,
                        final(tree)@,
                        t,
                        *lower_readdir,
                        *lower_mode,
                    )
                }
            },
        },
{
    let norm = match resolve_write_target(&*tree, path, false) {
        Ok(p) => p,
        Err(e) => {
            return Err(e);
        },
    };
    proof {
        lemma_normalized_is_clean(path@);
        lemma_segments_of_normalized(path@);
        lemma_segments_shape(normalized_absolute(path@));
        lemma_write_target_clean(tree@, resolve_dots(segments_of(path@)), 0, 0, false);
        let t = write_target_of(tree@, path@, false)->0;
        lemma_segments_of_absolute(t);
    }
    let hidden = tree.descend(norm.as_str()).is_blocked_or_whiteout();
    if !hidden {
        let in_upper = tree.descend(norm.as_str()).content().is_some();
        let in_lower = lower_exists(norm.as_str());
        proof {
            assert(probed(*lower_exists, norm@, in_lower));
        }
        if in_upper || in_lower {
            return Err(VfsError::AlreadyExists(path.to_owned()));
        }
    }
    let ghost t = write_target_of(tree@, path@, false)->0;
    proof {
        lemma_resolve_dots_of_clean(t);
        lemma_write_target_clean(tree@, t, 0, 0, true);
        if let Some(t2) = write_target_of(tree@, absolute_of(t), true) {
            lemma_segments_of_absolute(t2);
        }
    }
    let resolved = match resolve_write_target(&*tree, norm.as_str(), true) {
        Ok(p) => p,
        Err(e) => {
            return Err(e);
        },
    };
    tree.ensure_dirs(resolved.as_str(), lower_readdir, lower_mode)
}

/// The lower-layer readlink probe answered `r` for a path spelled `path`.
pub open spec fn link_probed<Rl: Fn(&str) -> Result<String, VfsError>>(
    f: Rl,
    path: Seq<char>,
    r: Result<String, VfsError>,
) -> bool {
    exists|p: &str| p@ == path && #[trigger] call_ensures(f, (p,), r)
}

/// The segments of the normalized form of an absolute `path`.
pub open spec fn norm_segs(path: Seq<char>) -> Seq<Seq<char>> {
    segments_of(normalized_absolute(path))
}

/// The normalized form of a path is the absolute path of its segments,
/// which are in normal form.
pub(crate) proof fn lemma_norm_segs(path: Seq<char>)
    ensures
        normalized_absolute(path) == absolute_of(norm_segs(path)),
        clean_segments(norm_segs(path)),
        slash_free(norm_segs(path)),
{
    lemma_normalized_is_clean(path);
    lemma_segments_shape(normalized_absolute(path));
    lemma_segments_of_normalized(path);
    lemma_resolve_dots_clean(segments_of(path));
    lemma_segments_of_absolute(norm_segs(path));
    crate::vfs::paths::lemma_normalize_idempotent(path);
}

/// `lstat` of `path` (the final component is not followed): upper
/// content gives its metadata, the lower layer answers where the upper
/// tree has nothing.
pub fn lstat<E, Ls>(tree: &OverlayTree, path: &str, lower_exists: &E, lower_lstat: &Ls) -> (r: Result<Metadata, VfsError>) where
    E: Fn(&str) -> bool,
    Ls: Fn(&str) -> Result<Metadata, VfsError>,

    requires
        tree.wf(),
        forall|p: &str| lower_exists.requires((p,)),
        forall|p: &str| lower_lstat.requires((p,)),
    ensures
        !starts_with_slash(path@) ==> (r matches Err(e) && not_absolute_error(path@, e)),
        starts_with_slash(path@) ==> lstat_answer(r, tree@, norm_segs(path@), path@, *lower_exists, *lower_lstat),
{
    let norm = match normalize(path) {
        Ok(p) => p,
        Err(e) => {
            return Err(e);
        },
    };
    proof {
        lemma_norm_segs(path@);
    }
    lstat_overlay(tree, norm.as_str(), path, lower_exists, lower_lstat)
}

/// The target of the symlink at `path` (not resolved): an upper symlink
/// gives its target, other upper content is `InvalidPath`, a whiteout at
/// or above it `NotFound`; with no upper entry the lower layer answers
/// when it has the path.
pub fn readlink<E, Rl>(tree: &OverlayTree, path: &str, lower_exists: &E, lower_readlink: &Rl) -> (r: Result<String, VfsError>) where
    E: Fn(&str) -> bool,
    Rl: Fn(&str) -> Result<String, VfsError>,

    requires
        tree.wf(),
        forall|p: &str| lower_exists.requires((p,)),
        forall|p: &str| lower_readlink.requires((p,)),
    ensures
        !starts_with_slash(path@) ==> (r matches Err(e) && not_absolute_error(path@, e)),
        starts_with_slash(path@) ==> {
            let at = normalized_absolute(path@);
            match descend_in(tree@, norm_segs(path@)) {
                DescendView::Found(NodeView::Symlink { target, .. }) => r matches Ok(s) && s@ == target,
                DescendView::Found(NodeView::Whiteout) => r matches Err(VfsError::NotFound(p)) && p@ == path@,
                DescendView::Blocked => r matches Err(VfsError::NotFound(p)) && p@ == path@,
                DescendView::Found(_) => r matches Err(VfsError::InvalidPath(p)) && p@ == path@,
                _ => {
                    ||| probed(*lower_exists, at, true) && link_probed(*lower_readlink, at, r)
                    ||| probed(*lower_exists, at, false) && (r matches Err(VfsError::NotFound(p)) && p@ == path@)
                },
            }
        },
{
    let norm = match normalize(path) {
        Ok(p) => p,
        Err(e) => {
            return Err(e);
        },
    };
    match tree.descend(norm.as_str()) {
        Descend::Found(UpperNode::Symlink { target, .. }) => Ok(target.clone()),
        Descend::Found(UpperNode::Whiteout) | Descend::Blocked => Err(VfsError::NotFound(path.to_owned())),
        Descend::Found(_) => Err(VfsError::InvalidPath(path.to_owned())),
        _ => {
            let present = lower_exists(norm.as_str());
            proof {
                assert(probed(*lower_exists, norm@, present));
            }
            if present {
                let r = lower_readlink(norm.as_str());
                proof {
                    assert(link_probed(*lower_readlink, norm@, r));
                }
                r
            } else {
                Err(VfsError::NotFound(path.to_owned()))
            }
        },
    }
}

/// What `canonicalize` answers once the path resolved to `segs`: the
/// resolved path when either layer has something there that no whiteout
/// hides, `NotFound` otherwise.
pub open spec fn canonical_outcome<E: Fn(&str) -> bool>(
    r: Result<String, VfsError>,
    cs: Seq<(Seq<char>, NodeView)>,
    segs: Seq<Seq<char>>,
    path: Seq<char>,
    lower_exists: E,
) -> bool {
    let at = absolute_of(segs);
    let d = descend_in(cs, segs);
    if hidden_at(d) {
        r matches Err(VfsError::NotFound(p)) && p@ == path
    } else if has_content(d) {
        r matches Ok(p) && p@ == at
    } else {
        ||| probed(lower_exists, at, true) && (r matches Ok(p) && p@ == at)
        ||| probed(lower_exists, at, false) && (r matches Err(VfsError::NotFound(p)) && p@ == path)
    }
}

/// The resolved absolute path of an existing node, following symlinks of
/// both layers.
pub fn canonicalize<S, R, E>(
    tree: &OverlayTree,
    path: &str,
    lower_is_symlink: &S,
    lower_readlink: &R,
    lower_exists: &E,
) -> (r: Result<String, VfsError>) where
    S: Fn(&str) -> bool,
    R: Fn(&str) -> Result<String, VfsError>,
    E: Fn(&str) -> bool,

    requires
        tree.wf(),
        forall|p: &str| lower_is_symlink.requires((p,)),
        forall|p: &str| lower_readlink.requires((p,)),
        forall|p: &str| lower_exists.requires((p,)),
    ensures
        !starts_with_slash(path@) ==> (r matches Err(e) && not_absolute_error(path@, e)),
        r matches Ok(p) ==> normal_abs(p@),
        forall|links: spec_fn(Seq<char>) -> Option<Result<Seq<char>, VfsError>>|
            #[trigger] answers_as(links, *lower_is_symlink, *lower_readlink) && starts_with_slash(path@) ==> match resolve_spec(
                tree@,
                normalized_absolute(path@),
                true,
                MAX_SYMLINK_DEPTH as nat,
                links,
            ) {
                Err(f) => r matches Err(e) && outcome_is(Err::<String, VfsError>(e), Err(f)),
                Ok(segs) => canonical_outcome(r, tree@, segs, path@, *lower_exists),
            },
{
    let norm = match normalize(path) {
        Ok(p) => p,
        Err(e) => {
            return Err(e);
        },
    };
    let resolved = match resolve_path_depth(tree, norm.as_str(), true, MAX_SYMLINK_DEPTH, lower_is_symlink, lower_readlink) {
        Ok(p) => p,
        Err(e) => {
            return Err(e);
        },
    };
    let ghost segs = segments_of(resolved@);
    proof {
        assert forall|links: spec_fn(Seq<char>) -> Option<Result<Seq<char>, VfsError>>|
            #[trigger] answers_as(links, *lower_is_symlink, *lower_readlink) implies resolve_spec(
            tree@,
            normalized_absolute(path@),
            true,
            MAX_SYMLINK_DEPTH as nat,
            links,
        ) == Ok::<Seq<Seq<char>>, ResolveFault>(segs) by {
            let s = resolve_spec(tree@, norm@, true, MAX_SYMLINK_DEPTH as nat, links);
            if let Ok(x) = s {
                lemma_segments_of_absolute(x);
            }
        }
    }
    if tree.descend(resolved.as_str()).is_blocked_or_whiteout() {
        return Err(VfsError::NotFound(path.to_owned()));
    }
    if tree.descend(resolved.as_str()).content().is_none() {
        let present = lower_exists(resolved.as_str());
        proof {
            assert(probed(*lower_exists, resolved@, present));
        }
        if !present {
            return Err(VfsError::NotFound(path.to_owned()));
        }
    }
    Ok(resolved)
}

/// Whether `path` names an entry in either layer, following symlinks; a
/// path that cannot be normalized or resolved names none.
pub fn path_exists<S, R, E>(tree: &OverlayTree, path: &str, lower_is_symlink: &S, lower_readlink: &R, lower_exists: &E) -> (b: bool) where
    S: Fn(&str) -> bool,
    R: Fn(&str) -> Result<String, VfsError>,
    E: Fn(&str) -> bool,

    requires
        tree.wf(),
        forall|p: &str| lower_is_symlink.requires((p,)),
        forall|p: &str| lower_readlink.requires((p,)),
        forall|p: &str| lower_exists.requires((p,)),
    ensures
        !starts_with_slash(path@) ==> !b,
        forall|links: spec_fn(Seq<char>) -> Option<Result<Seq<char>, VfsError>>|
            #[trigger] answers_as(links, *lower_is_symlink, *lower_readlink) && starts_with_slash(path@) ==> match resolve_spec(
                tree@,
                normalized_absolute(path@),
                true,
                MAX_SYMLINK_DEPTH as nat,
                links,
            ) {
                Err(_) => !b,
                Ok(segs) => {
                    let d = descend_in(tree@, segs);
                    if hidden_at(d) {
                        !b
                    } else if has_content(d) {
                        b
                    } else {
                        probed(*lower_exists, absolute_of(segs), b)
                    }
                },
            },
{
    match canonicalize(tree, path, lower_is_symlink, lower_readlink, lower_exists) {
        Ok(_) => true,
        Err(_) => false,
    }
}

/// The file there ends with `data`.
pub open spec fn file_ends_with(d: DescendView, data: Seq<u8>) -> bool {
    d matches DescendView::Found(NodeView::File { content: c, .. }) && c.len() >= data.len() && c.subrange(
        c.len() - data.len(),
        c.len() as int,
    ) == data
}

/// The existence probe never says yes for a path spelled `at`.
pub open spec fn says_absent<E: Fn(&str) -> bool>(f: E, at: Seq<char>) -> bool {
    forall|p: &str, b: bool| #[trigger] call_ensures(f, (p,), b) && p@ == at ==> !b
}

/// Where an append lands once the write target is `t`: where `t`
/// resolves, or `t` itself when resolving it finds nothing; `None` when
/// resolving fails otherwise.
pub open spec fn append_spot(
    cs: Seq<(Seq<char>, NodeView)>,
    t: Seq<Seq<char>>,
    links: spec_fn(Seq<char>) -> Option<Result<Seq<char>, VfsError>>,
) -> Option<Seq<Seq<char>>> {
    match resolve_spec(cs, absolute_of(t), true, MAX_SYMLINK_DEPTH as nat, links) {
        Ok(segs) => Some(segs),
        Err(ResolveFault::Hidden(_)) => Some(t),
        Err(ResolveFault::Lower(VfsError::NotFound(_))) => Some(t),
        Err(_) => None,
    }
}

/// A copy of a byte slice.
fn copy_bytes(data: &[u8]) -> (v: Vec<u8>)
    ensures
        v@ == data@,
{
    let mut v: Vec<u8> = Vec::new();
    let mut k: usize = 0;
    while k < data.len()
        invariant
            k <= data.len(),
            v@ == data@.take(k as int),
        decreases data.len() - k,
    {
        v.push(data[k]);
        proof {
            assert(v@ =~= data@.take(k + 1));
        }
        k = k + 1;
    }
    proof {
        assert(data@.take(data.len() as int) =~= data@);
    }
    v
}

/// Ensures the parent directories of the normalized path `path` in the
/// upper tree (following upper symlinks along them); nothing to do below
/// the root.
pub(crate) fn ensure_parent_dirs<G, M>(tree: &mut OverlayTree, path: &str, lower_readdir: &G, lower_mode: &M) -> (r: Result<(), VfsError>) where
    G: Fn(&str) -> Option<Vec<String>>,
    M: Fn(&str) -> Option<u32>,

    requires
        old(tree).wf(),
        forall|p: &str| lower_readdir.requires((p,)),
        forall|p: &str| lower_mode.requires((p,)),
    ensures
        final(tree).wf(),
        keeps_files(old(tree)@, final(tree)@),
        segments_of(path@).len() <= 1 ==> r is Ok && final(tree)@ == old(tree)@,
        segments_of(path@).len() > 0 && clean_segments(segments_of(path@)) && (forall|k: int|
            1 <= k < segments_of(path@).len() ==> !(#[trigger] descend_in(old(tree)@, segments_of(path@).take(k)) matches DescendView::Found(
                NodeView::Symlink { .. },
            ))) ==> dirs_ensured(r, old(tree)@, final(tree)@, segments_of(path@).drop_last(), *lower_readdir, *lower_mode),
        segments_of(path@).len() > 0 && clean_segments(segments_of(path@)) && ensure_fault(
            old(tree)@,
            segments_of(path@).drop_last(),
        ) is None ==> r is Ok
            && exists|made: Seq<NodeView>| {
            &&& resurrect_ok(old(tree)@, segments_of(path@).drop_last(), made, *lower_readdir, *lower_mode, Seq::<Seq<char>>::empty())
            &&& #[trigger] ensure_at(old(tree)@, segments_of(path@).drop_last(), made) == final(tree)@
        },
{
    let ghost segs = segments_of(path@);
    let parts = path_components(path);
    if parts.len() <= 1 {
        proof {
            if segs.len() > 0 {
                assert(segs.drop_last() =~= Seq::<Seq<char>>::empty());
                assert(ensure_at(tree@, segs.drop_last(), Seq::<NodeView>::empty()) == tree@);
            }
        }
        return Ok(());
    }
    let mut parent: Vec<String> = Vec::new();
    let mut k: usize = 0;
    while k + 1 < parts.len()
        invariant
            k + 1 <= parts.len(),
            strings_view(parent@) == strings_view(parts@).take(k as int),
        decreases parts.len() - k,
    {
        let ghost before = parent@;
        let piece = parts[k].clone();
        parent.push(piece);
        proof {
            assert(parent@ == before.push(piece));
            assert(piece@ == parts@[k as int]@);
            assert(strings_view(before).len() == before.len());
            assert(before.len() == k);
            assert forall|j: int| 0 <= j < k + 1 implies #[trigger] strings_view(parent@)[j] == strings_view(parts@).take(k + 1)[j] by {
                if j < k {
                    assert(parent@[j] == before[j]);
                    assert(strings_view(before)[j] == strings_view(parts@).take(k as int)[j]);
                }
            }
            assert(strings_view(parent@) =~= strings_view(parts@).take(k + 1));
        }
        k = k + 1;
    }
    let parent_path = absolute_path(&parent);
    proof {
        let pre = segs.drop_last();
        assert(strings_view(parent@) =~= pre);
        lemma_segments_shape(path@);
        if clean_segments(segs) && ensure_fault(tree@, pre) is None {
            crate::vfs::overlay_tree::lemma_no_links_along(tree@, pre);
        }
        if clean_segments(segs) && forall|k: int|
            1 <= k <= pre.len() ==> !(#[trigger] descend_in(tree@, pre.take(k)) matches DescendView::Found(NodeView::Symlink { .. })) {
            assert(clean_segments(pre));
            assert(slash_free(pre));
            lemma_segments_of_absolute(pre);
            lemma_resolve_dots_of_clean(pre);
            crate::vfs::overlay::lemma_write_target_plain(tree@, pre, 0, true);
        }
        if clean_segments(segs) && forall|k: int|
            1 <= k < segs.len() ==> !(#[trigger] descend_in(tree@, segs.take(k)) matches DescendView::Found(NodeView::Symlink { .. })) {
            assert forall|k: int| 1 <= k <= pre.len() implies !(#[trigger] descend_in(tree@, pre.take(k)) matches DescendView::Found(
                NodeView::Symlink { .. },
            )) by {
                assert(pre.take(k) =~= segs.take(k));
            }
            assert(clean_segments(pre));
            assert(slash_free(pre));
            lemma_segments_of_absolute(pre);
            lemma_resolve_dots_of_clean(pre);
            crate::vfs::overlay::lemma_write_target_plain(tree@, pre, 0, true);
        }
    }
    let target = match resolve_write_target(&*tree, parent_path.as_str(), true) {
        Ok(p) => p,
        Err(e) => {
            return Err(e);
        },
    };
    ensure_dirs_keeping_files(tree, target.as_str(), lower_readdir, lower_mode)
}

/// Attaches a fresh file with `data` at `path` (not the root).
pub(crate) fn attach_file(tree: &mut OverlayTree, path: &str, data: Vec<u8>, mode: u32) -> (r: Result<(), VfsError>)
    requires
        old(tree).wf(),
        segments_of(path@).len() > 0,
    ensures
        final(tree).wf(),
        r is Ok ==> exists|t: SystemTime| #[trigger] descend_in(final(tree)@, segments_of(path@))
            == DescendView::Found(NodeView::File { content: data@, mode, mtime: t }),
        r is Ok ==> holds_file_at(final(tree)@, segments_of(path@), data@),
        (forall|t: SystemTime| #[trigger] attach_fault(old(tree)@, segments_of(path@), NodeView::File { content: data@, mode, mtime: t })
            is None) ==> r is Ok,
        r is Err ==> final(tree)@ == old(tree)@,
        r is Ok ==> exists|t: SystemTime| {
            &&& attach_fault(old(tree)@, segments_of(path@), NodeView::File { content: data@, mode, mtime: t }) is None
            &&& #[trigger] replace_at(old(tree)@, segments_of(path@), NodeView::File { content: data@, mode, mtime: t }) == final(tree)@
        },
{
    let now = system_time_now();
    let ghost node = NodeView::File { content: data@, mode, mtime: now };
    let ghost before = tree@;
    let r = tree.attach(path, UpperNode::File { content: data, mode, mtime: now });
    proof {
        if r is Ok {
            lemma_attach_then_descend(before, segments_of(path@), node, segments_of(path@));
            lemma_attach_holds_file(before, segments_of(path@), data@, mode, now);
        }
    }
    r
}

/// Appends to the file at `path` after upper-tree growth, stating the law:
/// the file there then ends with the bytes appended.
fn append_in_upper(tree: &mut OverlayTree, path: &str, data: &[u8]) -> (r: Result<(), VfsError>)
    requires
        old(tree).wf(),
    ensures
        final(tree).wf(),
        r is Ok ==> file_ends_with(descend_in(final(tree)@, segments_of(path@)), data@),
        descend_in(old(tree)@, segments_of(path@)) matches DescendView::Found(NodeView::File { content: c, .. }) ==> r is Ok
            && file_content(descend_in(final(tree)@, segments_of(path@))) == Some(c + data@),
{
    let ghost before = tree@;
    proof {
        if descend_in(before, segments_of(path@)) is Found {
            lemma_found_is_located(before, segments_of(path@));
        }
    }
    let r = tree.append_file(path, data);
    proof {
        let segs = segments_of(path@);
        if r is Ok {
            if let LocateView::At(NodeView::File { content: c, mode, .. }) = locate(before, segs) {
                let t = choose|t: SystemTime| #[trigger] replace_at(before, segs, NodeView::File { content: c + data@, mode, mtime: t }) == tree@;
                lemma_descend_replace_at(before, segs, NodeView::File { content: c + data@, mode, mtime: t }, segs);
                assert(segs.skip(segs.len() as int) =~= Seq::<Seq<char>>::empty());
                assert((c + data@).subrange((c + data@).len() - data@.len(), (c + data@).len() as int) =~= data@);
                assert(file_ends_with(descend_in(tree@, segs), data@));
            }
        }
    }
    r
}

/// The upper tree can take a file at `segs` once its parents are ensured:
/// the path is in normal form and no file or symlink of the upper tree
/// stands in place of one of its parent directories.
pub open spec fn parents_ready(cs: Seq<(Seq<char>, NodeView)>, segs: Seq<Seq<char>>) -> bool {
    segs.len() > 0 ==> clean_segments(segs) && ensure_fault(cs, segs.drop_last()) is None
}

/// Brings the lower file at `path` up into the upper tree (content, mode
/// and modification time), unless the upper tree already has content
/// there. A successful copy-up leaves at `path` an upper file with the
/// bytes the lower read gave and the mode and time the lower `stat` gave;
/// it fails only where the parents cannot be made, where one of those two
/// lower calls failed (with its error), or at the root.
fn copy_up<Rd, St, G, M>(
    tree: &mut OverlayTree,
    path: &str,
    lower_read: &Rd,
    lower_stat: &St,
    lower_readdir: &G,
    lower_mode: &M,
) -> (r: Result<(), VfsError>) where
    Rd: Fn(&str) -> Result<Vec<u8>, VfsError>,
    St: Fn(&str) -> Result<Metadata, VfsError>,
    G: Fn(&str) -> Option<Vec<String>>,
    M: Fn(&str) -> Option<u32>,

    requires
        old(tree).wf(),
        forall|p: &str| lower_read.requires((p,)),
        forall|p: &str| lower_stat.requires((p,)),
        forall|p: &str| lower_readdir.requires((p,)),
        forall|p: &str| lower_mode.requires((p,)),
    ensures
        final(tree).wf(),
        keeps_files(old(tree)@, final(tree)@),
        has_content(descend_in(old(tree)@, segments_of(path@))) ==> r is Ok && final(tree)@ == old(tree)@,
        !has_content(descend_in(old(tree)@, segments_of(path@))) && r is Ok ==> exists|v: Vec<u8>, m: Metadata| {
            &&& #[trigger] read_probed(*lower_read, path@, Ok(v))
            &&& #[trigger] probed_result(*lower_stat, path@, Ok(m))
            &&& holds_file_at(final(tree)@, segments_of(path@), v@)
            &&& descend_in(final(tree)@, segments_of(path@)) == DescendView::Found(
                NodeView::File { content: v@, mode: m.mode, mtime: m.mtime },
            )
        },
        r matches Err(e) ==> {
            ||| !parents_ready(old(tree)@, segments_of(path@))
            ||| read_probed(*lower_read, path@, Err(e))
            ||| probed_result(*lower_stat, path@, Err(e))
            ||| segments_of(path@).len() == 0 && (e matches VfsError::IsADirectory(p) && p@ == path@)
        },
{
    if tree.descend(path).content().is_some() {
        return Ok(());
    }
    let ghost before = tree@;
    let ghost segs = segments_of(path@);
    match ensure_parent_dirs(tree, path, lower_readdir, lower_mode) {
        Ok(()) => {},
        Err(e) => {
            return Err(e);
        },
    }
    let ghost ensured = tree@;
    let rd = lower_read(path);
    proof {
        assert(read_probed(*lower_read, path@, rd));
    }
    let data = match rd {
        Ok(d) => d,
        Err(e) => {
            return Err(e);
        },
    };
    let st = lower_stat(path);
    proof {
        assert(probed_result(*lower_stat, path@, st));
    }
    let meta = match st {
        Ok(m) => m,
        Err(e) => {
            return Err(e);
        },
    };
    if path_components(path).len() == 0 {
        return Err(VfsError::IsADirectory(path.to_owned()));
    }
    let ghost mid = tree@;
    proof {
        if parents_ready(before, segs) {
            assert forall|t: SystemTime| #[trigger] attach_fault(
                mid,
                segs,
                NodeView::File { content: data@, mode: meta.mode, mtime: t },
            ) is None by {
                let made = choose|made: Seq<NodeView>| {
                    &&& resurrect_ok(before, segs.drop_last(), made, *lower_readdir, *lower_mode, Seq::<Seq<char>>::empty())
                    &&& #[trigger] ensure_at(before, segs.drop_last(), made) == mid
                };
                assert(segs.drop_last().push(segs.last()) =~= segs);
                crate::vfs::overlay_tree::lemma_ensure_then_attach_ok(
                    before,
                    segs.drop_last(),
                    made,
                    *lower_readdir,
                    *lower_mode,
                    Seq::<Seq<char>>::empty(),
                    segs.last(),
                    NodeView::File { content: data@, mode: meta.mode, mtime: t },
                );
            }
        }
    }
    match attach_file(tree, path, data, meta.mode) {
        Ok(()) => {},
        Err(e) => {
            return Err(e);
        },
    }
    let ghost attached = tree@;
    proof {
        assert forall|q: Seq<Seq<char>>, c: Seq<u8>| #[trigger] holds_file_at(before, q, c) implies holds_file_at(tree@, q, c) by {
            assert(holds_file_at(mid, q, c));
            assert(q != segs);
            let t = choose|t: SystemTime| {
                &&& attach_fault(mid, segs, NodeView::File { content: data@, mode: meta.mode, mtime: t }) is None
                &&& #[trigger] replace_at(mid, segs, NodeView::File { content: data@, mode: meta.mode, mtime: t }) == tree@
            };
            lemma_attach_keeps_files(mid, segs, NodeView::File { content: data@, mode: meta.mode, mtime: t }, q, c);
        }
    }
    let r = set_mtime_in_upper(tree, path, meta.mtime);
    proof {
        let t = choose|t: SystemTime| #[trigger] descend_in(attached, segs) == DescendView::Found(
            NodeView::File { content: data@, mode: meta.mode, mtime: t },
        );
        lemma_found_is_located(attached, segs);
        let node = NodeView::File { content: data@, mode: meta.mode, mtime: meta.mtime };
        lemma_descend_replace_at(attached, segs, node, segs);
        assert(segs.skip(segs.len() as int) =~= Seq::<Seq<char>>::empty());
    }
    r
}

/// Appends `content` to the file at `path`, following symlinks (upper ones
/// first, as a write does, then both layers). A whited-out path is
/// recreated fresh with just `content`; a lower file is brought up first;
/// a path that neither layer has is `NotFound`. After a successful append
/// the upper tree holds a file that ends with `content`.
pub fn append_file<S, R, E, Rd, St, G, M>(
    tree: &mut OverlayTree,
    path: &str,
    content: &[u8],
    lower_is_symlink: &S,
    lower_readlink: &R,
    lower_exists: &E,
    lower_read: &Rd,
    lower_stat: &St,
    lower_readdir: &G,
    lower_mode: &M,
) -> (r: Result<(), VfsError>) where
    S: Fn(&str) -> bool,
    R: Fn(&str) -> Result<String, VfsError>,
    E: Fn(&str) -> bool,
    Rd: Fn(&str) -> Result<Vec<u8>, VfsError>,
    St: Fn(&str) -> Result<Metadata, VfsError>,
    G: Fn(&str) -> Option<Vec<String>>,
    M: Fn(&str) -> Option<u32>,

    requires
        old(tree).wf(),
        forall|p: &str| lower_is_symlink.requires((p,)),
        forall|p: &str| lower_readlink.requires((p,)),
        forall|p: &str| lower_exists.requires((p,)),
        forall|p: &str| lower_read.requires((p,)),
        forall|p: &str| lower_stat.requires((p,)),
        forall|p: &str| lower_readdir.requires((p,)),
        forall|p: &str| lower_mode.requires((p,)),
    ensures
        final(tree).wf(),
        !starts_with_slash(path@) ==> (r matches Err(e) && not_absolute_error(path@, e)) && final(tree)@ == old(tree)@,
        r is Ok ==> exists|segs: Seq<Seq<char>>| file_ends_with(#[trigger] descend_in(final(tree)@, segs), content@),
        forall|links: spec_fn(Seq<char>) -> Option<Result<Seq<char>, VfsError>>|
            #[trigger] answers_as(links, *lower_is_symlink, *lower_readlink) && starts_with_slash(path@) && !hidden_at(
                descend_in(old(tree)@, norm_segs(path@)),
            ) ==> match write_target_of(old(tree)@, path@, true) {
                None => (r matches Err(VfsError::SymlinkLoop(p)) && p@ == normalized_absolute(path@)) && final(tree)@ == old(tree)@,
                Some(t) => match append_spot(old(tree)@, t, links) {
                    Some(spot) => {
                        &&& (descend_in(old(tree)@, spot) is NotDir || (descend_in(old(tree)@, spot) is Missing && says_absent(
                            *lower_exists,
                            absolute_of(spot),
                        ))) ==> (r matches Err(VfsError::NotFound(p)) && p@ == path@) && final(tree)@ == old(tree)@
                        &&& r is Ok ==> file_ends_with(descend_in(final(tree)@, spot), content@)
                        &&& descend_in(old(tree)@, spot) matches DescendView::Found(NodeView::File { content: c, .. }) ==> r is Ok
                            && file_content(descend_in(final(tree)@, spot)) == Some(c + content@)
                    },
                    None => true,
                },
            },
{
    let norm = match normalize(path) {
        Ok(p) => p,
        Err(e) => {
            return Err(e);
        },
    };
    proof {
        lemma_norm_segs(path@);
    }
    if tree.descend(norm.as_str()).is_blocked_or_whiteout() {
        match ensure_parent_dirs(tree, norm.as_str(), lower_readdir, lower_mode) {
            Ok(()) => {},
            Err(e) => {
                return Err(e);
            },
        }
        let data = copy_bytes(content);
        let r = attach_file(tree, norm.as_str(), data, 0o644);
        proof {
            if r is Ok {
                let t = choose|t: SystemTime| #[trigger] descend_in(tree@, segments_of(norm@))
                    == DescendView::Found(NodeView::File { content: content@, mode: 0o644u32, mtime: t });
                assert(content@.subrange(content@.len() - content@.len(), content@.len() as int) =~= content@);
                assert(file_ends_with(descend_in(tree@, segments_of(norm@)), content@));
            }
        }
        return r;
    }
    let ghost old_view = tree@;
    proof {
        lemma_segments_of_normalized(path@);
        lemma_resolve_dots_of_clean(norm_segs(path@));
        lemma_write_target_clean(tree@, resolve_dots(segments_of(path@)), 0, 0, true);
        if let Some(t) = write_target_of(tree@, path@, true) {
            lemma_segments_of_absolute(t);
        }
    }
    let target = match resolve_write_target(&*tree, norm.as_str(), true) {
        Ok(p) => p,
        Err(e) => {
            return Err(e);
        },
    };
    let ghost t = segments_of(target@);
    let resolved = match resolve_path_depth(&*tree, target.as_str(), true, MAX_SYMLINK_DEPTH, lower_is_symlink, lower_readlink) {
        Ok(p) => p,
        Err(VfsError::NotFound(_)) => string_copy(&target),
        Err(e) => {
            return Err(e);
        },
    };
    let ghost spot = segments_of(resolved@);
    proof {
        lemma_segments_of_absolute(spot);
        assert forall|links: spec_fn(Seq<char>) -> Option<Result<Seq<char>, VfsError>>|
            #[trigger] answers_as(links, *lower_is_symlink, *lower_readlink) implies append_spot(old_view, t, links)
            == Some(spot) by {
            let s = resolve_spec(old_view, target@, true, MAX_SYMLINK_DEPTH as nat, links);
            if let Ok(x) = s {
                lemma_segments_of_absolute(x);
            }
        }
    }
    match resolve_layer(&*tree, resolved.as_str(), lower_exists) {
        LayerResult::Whiteout => {
            match ensure_parent_dirs(tree, resolved.as_str(), lower_readdir, lower_mode) {
                Ok(()) => {},
                Err(e) => {
                    return Err(e);
                },
            }
            let data = copy_bytes(content);
            let r = attach_file(tree, resolved.as_str(), data, 0o644);
            proof {
                if r is Ok {
                    let t0 = choose|t0: SystemTime| #[trigger] descend_in(tree@, spot)
                        == DescendView::Found(NodeView::File { content: content@, mode: 0o644u32, mtime: t0 });
                    assert(content@.subrange(content@.len() - content@.len(), content@.len() as int) =~= content@);
                    assert(file_ends_with(descend_in(tree@, spot), content@));
                }
            }
            r
        },
        LayerResult::Upper => append_in_upper(tree, resolved.as_str(), content),
        LayerResult::Lower => {
            match copy_up(tree, resolved.as_str(), lower_read, lower_stat, lower_readdir, lower_mode) {
                Ok(()) => {},
                Err(e) => {
                    return Err(e);
                },
            }
            append_in_upper(tree, resolved.as_str(), content)
        },
        LayerResult::NotFound => Err(VfsError::NotFound(path.to_owned())),
    }
}

/// A copy of a string.
fn string_copy(s: &String) -> (r: String)
    ensures
        r@ == s@,
{
    s.clone()
}

/// The node there is a file or directory with mode `m`.
pub open spec fn has_mode(d: DescendView, m: u32) -> bool {
    ||| d matches DescendView::Found(NodeView::File { mode, .. }) && mode == m
    ||| d matches DescendView::Found(NodeView::Dir { mode, .. }) && mode == m
}

/// The node there carries the modification time `t`.
pub open spec fn has_mtime(d: DescendView, t: SystemTime) -> bool {
    ||| d matches DescendView::Found(NodeView::File { mtime, .. }) && mtime == t
    ||| d matches DescendView::Found(NodeView::Dir { mtime, .. }) && mtime == t
    ||| d matches DescendView::Found(NodeView::Symlink { mtime, .. }) && mtime == t
}

/// `set_mode` in the upper tree, stating what it leaves there.
fn set_mode_in_upper(tree: &mut OverlayTree, path: &str, mode: u32) -> (r: Result<(), VfsError>)
    requires
        old(tree).wf(),
    ensures
        final(tree).wf(),
        edit_outcome(old(tree)@, final(tree)@, path@, Edit::Mode(mode), r),
        r is Ok ==> exists|segs: Seq<Seq<char>>| has_mode(#[trigger] descend_in(final(tree)@, segs), mode),
        keeps_files(old(tree)@, final(tree)@),
{
    let ghost before = tree@;
    let r = tree.set_mode(path, mode);
    proof {
        lemma_edit_keeps_files(before, tree@, path@, Edit::Mode(mode), r);
        let segs = segments_of(path@);
        if r is Ok {
            if let LocateView::At(n) = locate(before, segs) {
                let n2 = edited(n, Edit::Mode(mode))->0;
                lemma_descend_replace_at(before, segs, n2, segs);
                assert(segs.skip(segs.len() as int) =~= Seq::<Seq<char>>::empty());
                assert(has_mode(descend_in(tree@, segs), mode));
            }
        }
    }
    r
}

/// `set_mtime` in the upper tree, stating what it leaves there.
fn set_mtime_in_upper(tree: &mut OverlayTree, path: &str, mtime: SystemTime) -> (r: Result<(), VfsError>)
    requires
        old(tree).wf(),
    ensures
        final(tree).wf(),
        edit_outcome(old(tree)@, final(tree)@, path@, Edit::Mtime(mtime), r),
        r is Ok ==> exists|segs: Seq<Seq<char>>| has_mtime(#[trigger] descend_in(final(tree)@, segs), mtime),
        keeps_files(old(tree)@, final(tree)@),
{
    let ghost before = tree@;
    let r = tree.set_mtime(path, mtime);
    proof {
        lemma_edit_keeps_files(before, tree@, path@, Edit::Mtime(mtime), r);
        let segs = segments_of(path@);
        if r is Ok {
            if let LocateView::At(n) = locate(before, segs) {
                let n2 = edited(n, Edit::Mtime(mtime))->0;
                lemma_descend_replace_at(before, segs, n2, segs);
                assert(segs.skip(segs.len() as int) =~= Seq::<Seq<char>>::empty());
                assert(has_mtime(descend_in(tree@, segs), mtime));
            }
        }
    }
    r
}

/// Ensures the directories along the normalized path `path` (following
/// upper symlinks along it).
fn ensure_dir_path<G, M>(tree: &mut OverlayTree, path: &str, lower_readdir: &G, lower_mode: &M) -> (r: Result<(), VfsError>) where
    G: Fn(&str) -> Option<Vec<String>>,
    M: Fn(&str) -> Option<u32>,

    requires
        old(tree).wf(),
        forall|p: &str| lower_readdir.requires((p,)),
        forall|p: &str| lower_mode.requires((p,)),
    ensures
        final(tree).wf(),
        keeps_files(old(tree)@, final(tree)@),
        !starts_with_slash(path@) ==> (r matches Err(e) && not_absolute_error(path@, e)) && final(tree)@ == old(tree)@,
        starts_with_slash(path@) ==> match write_target_of(old(tree)@, path@, true) {
            None => (r matches Err(VfsError::SymlinkLoop(p)) && p@ == path@) && final(tree)@ == old(tree)@,
            Some(t) => dirs_ensured(r, old(tree)@, final(tree)@, t, *lower_readdir, *lower_mode),
        },
{
    let target = match resolve_write_target(&*tree, path, true) {
        Ok(p) => p,
        Err(e) => {
            return Err(e);
        },
    };
    proof {
        lemma_normalized_is_clean(path@);
        lemma_segments_of_normalized(path@);
        lemma_segments_shape(normalized_absolute(path@));
        lemma_write_target_clean(tree@, resolve_dots(segments_of(path@)), 0, 0, true);
        lemma_segments_of_absolute(write_target_of(tree@, path@, true)->0);
    }
    ensure_dirs_keeping_files(tree, target.as_str(), lower_readdir, lower_mode)
}

/// `ensure_dirs`, stating that it keeps every file.
fn ensure_dirs_keeping_files<G, M>(tree: &mut OverlayTree, path: &str, lower_readdir: &G, lower_mode: &M) -> (r: Result<(), VfsError>) where
    G: Fn(&str) -> Option<Vec<String>>,
    M: Fn(&str) -> Option<u32>,

    requires
        old(tree).wf(),
        forall|p: &str| lower_readdir.requires((p,)),
        forall|p: &str| lower_mode.requires((p,)),
    ensures
        final(tree).wf(),
        keeps_files(old(tree)@, final(tree)@),
        dirs_ensured(r, old(tree)@, final(tree)@, segments_of(path@), *lower_readdir, *lower_mode),
{
    let ghost before = tree@;
    let r = tree.ensure_dirs(path, lower_readdir, lower_mode);
    proof {
        if ensure_fault(before, segments_of(path@)) is None {
            let made = choose|made: Seq<NodeView>| {
                &&& resurrect_ok(before, segments_of(path@), made, *lower_readdir, *lower_mode, Seq::<Seq<char>>::empty())
                &&& #[trigger] ensure_at(before, segments_of(path@), made) == tree@
            };
            lemma_ensure_keeps_files(before, segments_of(path@), made);
        }
    }
    r
}

/// The layer-level outcome of `chmod`/`utimes` once the path resolved to
/// `segs`: a whiteout, a file above the path, or nothing in either layer
/// (when the existence probe never says yes there) is `NotFound` and
/// changes nothing; upper content is edited in place (as the edit `e`
/// says).
pub open spec fn touch_outcome<E: Fn(&str) -> bool>(
    r: Result<(), VfsError>,
    old: Seq<(Seq<char>, NodeView)>,
    new: Seq<(Seq<char>, NodeView)>,
    segs: Seq<Seq<char>>,
    path: Seq<char>,
    e: Edit,
    lower_exists: E,
) -> bool {
    let d = descend_in(old, segs);
    match d {
        DescendView::Missing => says_absent(lower_exists, absolute_of(segs)) ==> (r matches Err(VfsError::NotFound(p)) && p@
            == path) && new == old,
        DescendView::Found(NodeView::Whiteout) => (r matches Err(VfsError::NotFound(p)) && p@ == path) && new == old,
        DescendView::Found(_) => edit_outcome(old, new, absolute_of(segs), e, r),
        _ => (r matches Err(VfsError::NotFound(p)) && p@ == path) && new == old,
    }
}

/// Sets the mode of the node at `path`, following symlinks of both
/// layers; a lower file is brought up first, a lower directory is created
/// in the upper tree first. After a successful `chmod` the upper tree
/// holds a file or directory with that mode.
pub fn chmod<S, R, E, Ls, Rd, St, G, M>(
    tree: &mut OverlayTree,
    path: &str,
    mode: u32,
    lower_is_symlink: &S,
    lower_readlink: &R,
    lower_exists: &E,
    lower_lstat: &Ls,
    lower_read: &Rd,
    lower_stat: &St,
    lower_readdir: &G,
    lower_mode: &M,
) -> (r: Result<(), VfsError>) where
    S: Fn(&str) -> bool,
    R: Fn(&str) -> Result<String, VfsError>,
    E: Fn(&str) -> bool,
    Ls: Fn(&str) -> Result<Metadata, VfsError>,
    Rd: Fn(&str) -> Result<Vec<u8>, VfsError>,
    St: Fn(&str) -> Result<Metadata, VfsError>,
    G: Fn(&str) -> Option<Vec<String>>,
    M: Fn(&str) -> Option<u32>,

    requires
        old(tree).wf(),
        forall|p: &str| lower_is_symlink.requires((p,)),
        forall|p: &str| lower_readlink.requires((p,)),
        forall|p: &str| lower_exists.requires((p,)),
        forall|p: &str| lower_lstat.requires((p,)),
        forall|p: &str| lower_read.requires((p,)),
        forall|p: &str| lower_stat.requires((p,)),
        forall|p: &str| lower_readdir.requires((p,)),
        forall|p: &str| lower_mode.requires((p,)),
    ensures
        final(tree).wf(),
        !starts_with_slash(path@) ==> (r matches Err(e) && not_absolute_error(path@, e)) && final(tree)@ == old(tree)@,
        r is Ok ==> exists|segs: Seq<Seq<char>>| has_mode(#[trigger] descend_in(final(tree)@, segs), mode),
        keeps_files(old(tree)@, final(tree)@),
        forall|links: spec_fn(Seq<char>) -> Option<Result<Seq<char>, VfsError>>|
            #[trigger] answers_as(links, *lower_is_symlink, *lower_readlink) && starts_with_slash(path@) ==> match resolve_spec(
                old(tree)@,
                normalized_absolute(path@),
                true,
                MAX_SYMLINK_DEPTH as nat,
                links,
            ) {
                Err(f) => (r matches Err(e) && outcome_is(Err::<String, VfsError>(e), Err(f))) && final(tree)@ == old(tree)@,
                Ok(segs) => touch_outcome(r, old(tree)@, final(tree)@, segs, path@, Edit::Mode(mode), *lower_exists),
            },
{
    let norm = match normalize(path) {
        Ok(p) => p,
        Err(e) => {
            return Err(e);
        },
    };
    let resolved = match resolve_path_depth(&*tree, norm.as_str(), true, MAX_SYMLINK_DEPTH, lower_is_symlink, lower_readlink) {
        Ok(p) => p,
        Err(e) => {
            return Err(e);
        },
    };
    let ghost segs = segments_of(resolved@);
    proof {
        assert forall|links: spec_fn(Seq<char>) -> Option<Result<Seq<char>, VfsError>>|
            #[trigger] answers_as(links, *lower_is_symlink, *lower_readlink) implies resolve_spec(
            tree@,
            normalized_absolute(path@),
            true,
            MAX_SYMLINK_DEPTH as nat,
            links,
        ) == Ok::<Seq<Seq<char>>, ResolveFault>(segs) by {
            let s = resolve_spec(tree@, norm@, true, MAX_SYMLINK_DEPTH as nat, links);
            if let Ok(x) = s {
                lemma_segments_of_absolute(x);
            }
        }
    }
    match resolve_layer(&*tree, resolved.as_str(), lower_exists) {
        LayerResult::Whiteout | LayerResult::NotFound => Err(VfsError::NotFound(path.to_owned())),
        LayerResult::Upper => set_mode_in_upper(tree, resolved.as_str(), mode),
        LayerResult::Lower => {
            let meta = match lower_lstat(resolved.as_str()) {
                Ok(m) => m,
                Err(e) => {
                    return Err(e);
                },
            };
            match meta.node_type {
                NodeType::File => {
                    match copy_up(tree, resolved.as_str(), lower_read, lower_stat, lower_readdir, lower_mode) {
                        Ok(()) => {},
                        Err(e) => {
                            return Err(e);
                        },
                    }
                    set_mode_in_upper(tree, resolved.as_str(), mode)
                },
                NodeType::Directory => {
                    match ensure_dir_path(tree, resolved.as_str(), lower_readdir, lower_mode) {
                        Ok(()) => {},
                        Err(e) => {
                            return Err(e);
                        },
                    }
                    set_mode_in_upper(tree, resolved.as_str(), mode)
                },
                NodeType::Symlink => Err(VfsError::IoError(String::from_str("cannot chmod a symlink directly"))),
            }
        },
    }
}

/// Sets the modification time of the node at `path`, following symlinks
/// of both layers; a lower file is brought up first, a lower directory is
/// created in the upper tree first. After a successful `utimes` the upper
/// tree holds a node with that time.
pub fn utimes<S, R, E, Ls, Rd, St, G, M>(
    tree: &mut OverlayTree,
    path: &str,
    mtime: SystemTime,
    lower_is_symlink: &S,
    lower_readlink: &R,
    lower_exists: &E,
    lower_lstat: &Ls,
    lower_read: &Rd,
    lower_stat: &St,
    lower_readdir: &G,
    lower_mode: &M,
) -> (r: Result<(), VfsError>) where
    S: Fn(&str) -> bool,
    R: Fn(&str) -> Result<String, VfsError>,
    E: Fn(&str) -> bool,
    Ls: Fn(&str) -> Result<Metadata, VfsError>,
    Rd: Fn(&str) -> Result<Vec<u8>, VfsError>,
    St: Fn(&str) -> Result<Metadata, VfsError>,
    G: Fn(&str) -> Option<Vec<String>>,
    M: Fn(&str) -> Option<u32>,

    requires
        old(tree).wf(),
        forall|p: &str| lower_is_symlink.requires((p,)),
        forall|p: &str| lower_readlink.requires((p,)),
        forall|p: &str| lower_exists.requires((p,)),
        forall|p: &str| lower_lstat.requires((p,)),
        forall|p: &str| lower_read.requires((p,)),
        forall|p: &str| lower_stat.requires((p,)),
        forall|p: &str| lower_readdir.requires((p,)),
        forall|p: &str| lower_mode.requires((p,)),
    ensures
        final(tree).wf(),
        !starts_with_slash(path@) ==> (r matches Err(e) && not_absolute_error(path@, e)) && final(tree)@ == old(tree)@,
        r is Ok ==> exists|segs: Seq<Seq<char>>| has_mtime(#[trigger] descend_in(final(tree)@, segs), mtime),
        keeps_files(old(tree)@, final(tree)@),
        forall|links: spec_fn(Seq<char>) -> Option<Result<Seq<char>, VfsError>>|
            #[trigger] answers_as(links, *lower_is_symlink, *lower_readlink) && starts_with_slash(path@) ==> match resolve_spec(
                old(tree)@,
                normalized_absolute(path@),
                true,
                MAX_SYMLINK_DEPTH as nat,
                links,
            ) {
                Err(f) => (r matches Err(e) && outcome_is(Err::<String, VfsError>(e), Err(f))) && final(tree)@ == old(tree)@,
                Ok(segs) => touch_outcome(r, old(tree)@, final(tree)@, segs, path@, Edit::Mtime(mtime), *lower_exists),
            },
{
    let norm = match normalize(path) {
        Ok(p) => p,
        Err(e) => {
            return Err(e);
        },
    };
    let resolved = match resolve_path_depth(&*tree, norm.as_str(), true, MAX_SYMLINK_DEPTH, lower_is_symlink, lower_readlink) {
        Ok(p) => p,
        Err(e) => {
            return Err(e);
        },
    };
    let ghost segs = segments_of(resolved@);
    proof {
        assert forall|links: spec_fn(Seq<char>) -> Option<Result<Seq<char>, VfsError>>|
            #[trigger] answers_as(links, *lower_is_symlink, *lower_readlink) implies resolve_spec(
            tree@,
            normalized_absolute(path@),
            true,
            MAX_SYMLINK_DEPTH as nat,
            links,
        ) == Ok::<Seq<Seq<char>>, ResolveFault>(segs) by {
            let s = resolve_spec(tree@, norm@, true, MAX_SYMLINK_DEPTH as nat, links);
            if let Ok(x) = s {
                lemma_segments_of_absolute(x);
            }
        }
    }
    match resolve_layer(&*tree, resolved.as_str(), lower_exists) {
        LayerResult::Whiteout | LayerResult::NotFound => Err(VfsError::NotFound(path.to_owned())),
        LayerResult::Upper => set_mtime_in_upper(tree, resolved.as_str(), mtime),
        LayerResult::Lower => {
            let meta = match lower_lstat(resolved.as_str()) {
                Ok(m) => m,
                Err(e) => {
                    return Err(e);
                },
            };
            match meta.node_type {
                NodeType::File => {
                    match copy_up(tree, resolved.as_str(), lower_read, lower_stat, lower_readdir, lower_mode) {
                        Ok(()) => {},
                        Err(e) => {
                            return Err(e);
                        },
                    }
                    set_mtime_in_upper(tree, resolved.as_str(), mtime)
                },
                NodeType::Directory => {
                    match ensure_dir_path(tree, resolved.as_str(), lower_readdir, lower_mode) {
                        Ok(()) => {},
                        Err(e) => {
                            return Err(e);
                        },
                    }
                    set_mtime_in_upper(tree, resolved.as_str(), mtime)
                },
                NodeType::Symlink => Err(VfsError::IoError(String::from_str("cannot utimes a symlink directly"))),
            }
        },
    }
}

/// Whether either layer has an entry at the normalized path `path` that
/// no whiteout hides (the lower layer is asked only when the upper tree
/// has no content there).
fn exists_in_either<E: Fn(&str) -> bool>(tree: &OverlayTree, path: &str, lower_exists: &E) -> (b: bool)
    requires
        tree.wf(),
        forall|p: &str| lower_exists.requires((p,)),
    ensures
        ({
            let d = descend_in(tree@, segments_of(path@));
            if hidden_at(d) {
                !b
            } else if has_content(d) {
                b
            } else {
                probed(*lower_exists, path@, b)
            }
        }),
{
    if tree.descend(path).is_blocked_or_whiteout() {
        return false;
    }
    if tree.descend(path).content().is_some() {
        return true;
    }
    let b = lower_exists(path);
    proof {
        assert(probed(*lower_exists, path@, b));
    }
    b
}

/// Nothing stands at `segs`: a whiteout hides it, or the upper tree has
/// no content there and the lower layer's existence probe never says yes.
pub open spec fn free_at<E: Fn(&str) -> bool>(cs: Seq<(Seq<char>, NodeView)>, segs: Seq<Seq<char>>, lower_exists: E) -> bool {
    let d = descend_in(cs, segs);
    hidden_at(d) || (!has_content(d) && says_absent(lower_exists, absolute_of(segs)))
}

/// Creates a symlink at `link` pointing to `target` (kept as given). The
/// name must not exist in either layer (a whited-out one may be
/// recreated), checked at the literal path and again at its write target
/// (upper symlinks along it followed, the final one not); the link lands
/// at the latter, below upper directories. It is created whenever the
/// name is free at both, the target is not the root and no upper file or
/// symlink stands in place of a directory above it.
pub fn symlink<E, G, M>(
    tree: &mut OverlayTree,
    target: &str,
    link: &str,
    lower_exists: &E,
    lower_readdir: &G,
    lower_mode: &M,
) -> (r: Result<(), VfsError>) where
    E: Fn(&str) -> bool,
    G: Fn(&str) -> Option<Vec<String>>,
    M: Fn(&str) -> Option<u32>,

    requires
        old(tree).wf(),
        forall|p: &str| lower_exists.requires((p,)),
        forall|p: &str| lower_readdir.requires((p,)),
        forall|p: &str| lower_mode.requires((p,)),
    ensures
        final(tree).wf(),
        !starts_with_slash(link@) ==> (r matches Err(e) && not_absolute_error(link@, e)) && final(tree)@ == old(tree)@,
        starts_with_slash(link@) && !hidden_at(descend_in(old(tree)@, norm_segs(link@))) && has_content(
            descend_in(old(tree)@, norm_segs(link@)),
        ) ==> (r matches Err(VfsError::AlreadyExists(p)) && p@ == link@) && final(tree)@ == old(tree)@,
        starts_with_slash(link@) ==> match write_target_of(old(tree)@, link@, false) {
            None => r is Err,
            Some(t) => {
                &&& r is Ok ==> crate::vfs::overlay_tree::dirs_above(final(tree)@, t) && (descend_in(final(tree)@, t) matches DescendView::Found(
                    NodeView::Symlink { target: l, .. },
                ) && l == target@)
                &&& free_at(old(tree)@, norm_segs(link@), *lower_exists) && free_at(old(tree)@, t, *lower_exists) && t.len() > 0
                    && ensure_fault(old(tree)@, t.drop_last()) is None ==> r is Ok
            },
        },
{
    let ghost t0 = tree@;
    let norm = match normalize(link) {
        Ok(p) => p,
        Err(e) => {
            return Err(e);
        },
    };
    proof {
        lemma_norm_segs(link@);
        lemma_resolve_dots_of_clean(norm_segs(link@));
        lemma_segments_of_normalized(link@);
        lemma_write_target_clean(t0, norm_segs(link@), 0, 0, false);
        if let Some(res) = write_target_of(t0, link@, false) {
            lemma_segments_of_absolute(res);
        }
    }
    if exists_in_either(&*tree, norm.as_str(), lower_exists) {
        return Err(VfsError::AlreadyExists(link.to_owned()));
    }
    let dest = match resolve_write_target(&*tree, norm.as_str(), false) {
        Ok(p) => p,
        Err(e) => {
            return Err(e);
        },
    };
    let ghost t = segments_of(dest@);
    if exists_in_either(&*tree, dest.as_str(), lower_exists) {
        return Err(VfsError::AlreadyExists(link.to_owned()));
    }
    if path_components(dest.as_str()).len() == 0 {
        return Err(VfsError::AlreadyExists(link.to_owned()));
    }
    match ensure_parent_dirs(tree, dest.as_str(), lower_readdir, lower_mode) {
        Ok(()) => {},
        Err(e) => {
            return Err(e);
        },
    }
    let now = system_time_now();
    let tgt = string_of_str(target);
    let ghost node = NodeView::Symlink { target: target@, mtime: now };
    let ghost before = tree@;
    proof {
        if free_at(t0, t, *lower_exists) && t.len() > 0 && ensure_fault(t0, t.drop_last()) is None {
            let made = choose|made: Seq<NodeView>| {
                &&& resurrect_ok(t0, t.drop_last(), made, *lower_readdir, *lower_mode, Seq::<Seq<char>>::empty())
                &&& #[trigger] ensure_at(t0, t.drop_last(), made) == tree@
            };
            assert(t.drop_last().push(t.last()) =~= t);
            crate::vfs::overlay_tree::lemma_ensure_then_attach_ok(
                t0,
                t.drop_last(),
                made,
                *lower_readdir,
                *lower_mode,
                Seq::<Seq<char>>::empty(),
                t.last(),
                node,
            );
        }
    }
    let r = tree.attach(dest.as_str(), UpperNode::Symlink { target: tgt, mtime: now });
    proof {
        if r is Ok {
            lemma_attach_then_descend(before, t, node, t);
            assert forall|k: int| 1 <= k < t.len() implies #[trigger] descend_in(tree@, t.take(k)) matches DescendView::Found(
                NodeView::Dir { .. },
            ) by {
                lemma_replace_at_keeps_dirs(before, t, node, k);
            }
        }
    }
    r
}

/// An owned copy of a string slice.
fn string_of_str(s: &str) -> (r: String)
    ensures
        r@ == s@,
{
    s.to_owned()
}

/// Setting the time of the file at `t` keeps its bytes there.
pub(crate) proof fn lemma_set_mtime_keeps_file(
    before: Seq<(Seq<char>, NodeView)>,
    after: Seq<(Seq<char>, NodeView)>,
    t: Seq<Seq<char>>,
    c: Seq<u8>,
    path: Seq<char>,
    mtime: SystemTime,
)
    requires
        wf_children(before),
        t.len() > 0,
        segments_of(path) == t,
        holds_file_at(before, t, c),
        edit_outcome(before, after, path, Edit::Mtime(mtime), Ok::<(), VfsError>(())),
    ensures
        holds_file_at(after, t, c),
{
    lemma_found_is_located(before, t);
    if let LocateView::At(n) = locate(before, t) {
        let n2 = edited(n, Edit::Mtime(mtime))->0;
        lemma_descend_replace_at(before, t, n2, t);
        assert(t.skip(t.len() as int) =~= Seq::<Seq<char>>::empty());
        assert forall|k: int| 1 <= k < t.len() implies #[trigger] descend_in(after, t.take(k)) matches DescendView::Found(
            NodeView::Dir { .. },
        ) by {
            lemma_replace_at_keeps_dirs(before, t, n2, k);
        }
    }
}

/// Makes `dst` a file with the content and mode (and modification time)
/// of the file at `src`, read through both layers: a content copy. `dst`
/// must not exist in either layer (a whited-out one may be recreated),
/// checked at the literal path and at its write target (upper symlinks
/// along it followed, the final one not), where the copy lands below upper
/// directories. Copying a file of the upper tree carries its bytes, and
/// succeeds whenever `dst` is free at both places, its write target is not
/// the root and no upper file or symlink stands in place of a directory
/// above it.
pub fn hardlink<S, R, E, Rd, St, G, M>(
    tree: &mut OverlayTree,
    src: &str,
    dst: &str,
    lower_is_symlink: &S,
    lower_readlink: &R,
    lower_exists: &E,
    lower_read: &Rd,
    lower_stat: &St,
    lower_readdir: &G,
    lower_mode: &M,
) -> (r: Result<(), VfsError>) where
    S: Fn(&str) -> bool,
    R: Fn(&str) -> Result<String, VfsError>,
    E: Fn(&str) -> bool,
    Rd: Fn(&str) -> Result<Vec<u8>, VfsError>,
    St: Fn(&str) -> Result<Metadata, VfsError>,
    G: Fn(&str) -> Option<Vec<String>>,
    M: Fn(&str) -> Option<u32>,

    requires
        old(tree).wf(),
        forall|p: &str| lower_is_symlink.requires((p,)),
        forall|p: &str| lower_readlink.requires((p,)),
        forall|p: &str| lower_exists.requires((p,)),
        forall|p: &str| lower_read.requires((p,)),
        forall|p: &str| lower_stat.requires((p,)),
        forall|p: &str| lower_readdir.requires((p,)),
        forall|p: &str| lower_mode.requires((p,)),
    ensures
        final(tree).wf(),
        !starts_with_slash(src@) ==> (r matches Err(e) && not_absolute_error(src@, e)) && final(tree)@ == old(tree)@,
        starts_with_slash(src@) && !starts_with_slash(dst@) ==> (r matches Err(e) && not_absolute_error(dst@, e)) && final(tree)@
            == old(tree)@,
        starts_with_slash(src@) && starts_with_slash(dst@) && !hidden_at(descend_in(old(tree)@, norm_segs(dst@)))
            && has_content(descend_in(old(tree)@, norm_segs(dst@))) ==> (r matches Err(VfsError::AlreadyExists(p)) && p@
            == dst@) && final(tree)@ == old(tree)@,
        starts_with_slash(src@) && starts_with_slash(dst@) ==> match write_target_of(old(tree)@, dst@, false) {
            None => r is Err,
            Some(t) => {
                &&& r is Ok ==> exists|c: Seq<u8>| holds_file_at(final(tree)@, t, c)
                &&& forall|links: spec_fn(Seq<char>) -> Option<Result<Seq<char>, VfsError>>|
                    #[trigger] answers_as(links, *lower_is_symlink, *lower_readlink) ==> match resolve_spec(
                        old(tree)@,
                        normalized_absolute(src@),
                        true,
                        MAX_SYMLINK_DEPTH as nat,
                        links,
                    ) {
                        Ok(segs) => descend_in(old(tree)@, segs) matches DescendView::Found(NodeView::File { content: c, .. }) ==> {
                            &&& r is Ok ==> holds_file_at(final(tree)@, t, c)
                            &&& free_at(old(tree)@, norm_segs(dst@), *lower_exists) && free_at(old(tree)@, t, *lower_exists) && t.len()
                                > 0 && ensure_fault(old(tree)@, t.drop_last()) is None ==> r is Ok
                        },
                        Err(_) => r is Err,
                    }
            },
        },
{
    let ghost t0 = tree@;
    let norm_src = match normalize(src) {
        Ok(p) => p,
        Err(e) => {
            return Err(e);
        },
    };
    let norm_dst = match normalize(dst) {
        Ok(p) => p,
        Err(e) => {
            return Err(e);
        },
    };
    proof {
        lemma_norm_segs(dst@);
        lemma_resolve_dots_of_clean(norm_segs(dst@));
        lemma_segments_of_normalized(dst@);
        lemma_write_target_clean(t0, norm_segs(dst@), 0, 0, false);
        if let Some(res) = write_target_of(t0, dst@, false) {
            lemma_segments_of_absolute(res);
        }
        crate::vfs::paths::lemma_normalize_idempotent(src@);
    }
    if exists_in_either(&*tree, norm_dst.as_str(), lower_exists) {
        return Err(VfsError::AlreadyExists(dst.to_owned()));
    }
    let read = read_file(&*tree, norm_src.as_str(), lower_is_symlink, lower_readlink, lower_exists, lower_read);
    proof {
        assert forall|links: spec_fn(Seq<char>) -> Option<Result<Seq<char>, VfsError>>|
            #[trigger] answers_as(links, *lower_is_symlink, *lower_readlink) implies match resolve_spec(
            t0,
            normalized_absolute(src@),
            true,
            MAX_SYMLINK_DEPTH as nat,
            links,
        ) {
            Ok(segs) => match descend_in(t0, segs) {
                DescendView::Found(NodeView::File { content: c, .. }) => read matches Ok(v) && v@ == c,
                _ => true,
            },
            Err(_) => read is Err,
        } by {
        }
    }
    let content = match read {
        Ok(c) => c,
        Err(e) => {
            return Err(e);
        },
    };
    let meta = match stat(&*tree, norm_src.as_str(), lower_is_symlink, lower_readlink, lower_exists, lower_stat) {
        Ok(m) => m,
        Err(e) => {
            return Err(e);
        },
    };
    let dest = match resolve_write_target(&*tree, norm_dst.as_str(), false) {
        Ok(p) => p,
        Err(e) => {
            return Err(e);
        },
    };
    let ghost t = segments_of(dest@);
    if exists_in_either(&*tree, dest.as_str(), lower_exists) {
        return Err(VfsError::AlreadyExists(dst.to_owned()));
    }
    if path_components(dest.as_str()).len() == 0 {
        return Err(VfsError::AlreadyExists(dst.to_owned()));
    }
    match ensure_parent_dirs(tree, dest.as_str(), lower_readdir, lower_mode) {
        Ok(()) => {},
        Err(e) => {
            return Err(e);
        },
    }
    proof {
        if free_at(t0, t, *lower_exists) && t.len() > 0 && ensure_fault(t0, t.drop_last()) is None {
            let made = choose|made: Seq<NodeView>| {
                &&& resurrect_ok(t0, t.drop_last(), made, *lower_readdir, *lower_mode, Seq::<Seq<char>>::empty())
                &&& #[trigger] ensure_at(t0, t.drop_last(), made) == tree@
            };
            assert(t.drop_last().push(t.last()) =~= t);
            assert forall|tm: SystemTime| #[trigger] attach_fault(tree@, t, NodeView::File { content: content@, mode: meta.mode, mtime: tm })
                is None by {
                crate::vfs::overlay_tree::lemma_ensure_then_attach_ok(
                    t0,
                    t.drop_last(),
                    made,
                    *lower_readdir,
                    *lower_mode,
                    Seq::<Seq<char>>::empty(),
                    t.last(),
                    NodeView::File { content: content@, mode: meta.mode, mtime: tm },
                );
            }
        }
    }
    let ghost bytes = content@;
    match attach_file(tree, dest.as_str(), content, meta.mode) {
        Ok(()) => {},
        Err(e) => {
            return Err(e);
        },
    }
    let ghost mid = tree@;
    proof {
        lemma_found_is_located(mid, t);
    }
    let r = tree.set_mtime(dest.as_str(), meta.mtime);
    proof {
        if r is Ok {
            lemma_set_mtime_keeps_file(mid, tree@, t, bytes, dest@, meta.mtime);
        }
    }
    r
}

/// A node reached by descent is where `locate` finds it.
pub(crate) proof fn lemma_found_is_located(cs: Seq<(Seq<char>, NodeView)>, segs: Seq<Seq<char>>)
    requires
        descend_in(cs, segs) is Found,
    ensures
        descend_in(cs, segs) matches DescendView::Found(n) && locate(cs, segs) == LocateView::At(n),
    decreases segs.len(),
{
    if segs.len() > 1 {
        match lookup(cs, segs[0]) {
            Some(NodeView::Dir { children, .. }) => {
                lemma_found_is_located(children, segs.drop_first());
                assert(segs.drop_last().drop_first() =~= segs.drop_first().drop_last());
                assert(segs.drop_first().last() == segs.last());
            },
            _ => {},
        }
    }
}

/// The lower layer's `lstat` probe never reports a directory at `at`.
pub open spec fn says_no_dir<Ls: Fn(&str) -> Result<Metadata, VfsError>>(f: Ls, at: Seq<char>) -> bool {
    forall|p: &str, r: Result<Metadata, VfsError>|
        #[trigger] call_ensures(f, (p,), r) && p@ == at ==> !(r matches Ok(m) && m.node_type == NodeType::Directory)
}

/// A file can be written at the target `t`: `t` is not the root and the
/// upper tree holds no directory there, the lower layer has no directory
/// there unless the upper tree hides or shadows it, and no upper file or
/// symlink stands in place of a directory above it.
pub open spec fn writable_at<Ls: Fn(&str) -> Result<Metadata, VfsError>>(
    cs: Seq<(Seq<char>, NodeView)>,
    t: Seq<Seq<char>>,
    lower_lstat: Ls,
) -> bool {
    &&& t.len() > 0
    &&& !(descend_in(cs, t) matches DescendView::Found(NodeView::Dir { .. }))
    &&& !hidden_at(descend_in(cs, t)) && !has_content(descend_in(cs, t)) ==> says_no_dir(lower_lstat, absolute_of(t))
    &&& ensure_fault(cs, t.drop_last()) is None
}

/// The mode a written file takes where the upper tree (its parents made)
/// shows `d`: an upper file keeps its mode; with nothing in the upper tree
/// the lower layer's `lstat` gives it (`0o644` when that fails); over a
/// whiteout or a symlink the file is fresh, `0o644`.
pub open spec fn written_mode<Ls: Fn(&str) -> Result<Metadata, VfsError>>(d: DescendView, lower_lstat: Ls, at: Seq<char>, m: u32) -> bool {
    match d {
        DescendView::Found(NodeView::File { mode, .. }) => m == mode,
        DescendView::Missing => exists|r: Result<Metadata, VfsError>| #[trigger] probed_result(lower_lstat, at, r) && m == match r {
            Ok(meta) => meta.mode,
            Err(_) => 0o644u32,
        },
        _ => m == 0o644,
    }
}

/// Writes `content` as the whole file at `path`: upper symlinks along the
/// path (and a final one) are followed and the file lands at that write
/// target, replacing a file there (keeping an upper file's mode, or the
/// lower file's, else `0o644`). A directory in either layer there is
/// `IsADirectory`. After a successful `write_file` the upper tree holds a
/// file with exactly `content` at the write target, below upper
/// directories; `lemma_read_after_write` then reads it back. Nothing else
/// changes but the parent directories made along the target.
pub fn write_file<Ls, G, M>(
    tree: &mut OverlayTree,
    path: &str,
    content: &[u8],
    lower_lstat: &Ls,
    lower_readdir: &G,
    lower_mode: &M,
) -> (r: Result<(), VfsError>) where
    Ls: Fn(&str) -> Result<Metadata, VfsError>,
    G: Fn(&str) -> Option<Vec<String>>,
    M: Fn(&str) -> Option<u32>,

    requires
        old(tree).wf(),
        forall|p: &str| lower_lstat.requires((p,)),
        forall|p: &str| lower_readdir.requires((p,)),
        forall|p: &str| lower_mode.requires((p,)),
    ensures
        final(tree).wf(),
        !starts_with_slash(path@) ==> (r matches Err(e) && not_absolute_error(path@, e)) && final(tree)@ == old(tree)@,
        starts_with_slash(path@) ==> match write_target_of(old(tree)@, path@, true) {
            None => (r matches Err(VfsError::SymlinkLoop(p)) && p@ == normalized_absolute(path@)) && final(tree)@ == old(tree)@,
            Some(t) => {
                &&& descend_in(old(tree)@, t) matches DescendView::Found(NodeView::Dir { .. }) ==> (r matches Err(
                    VfsError::IsADirectory(p),
                ) && p@ == path@) && final(tree)@ == old(tree)@
                &&& r is Ok ==> holds_file_at(final(tree)@, t, content@) && clean_segments(t) && slash_free(t)
                &&& writable_at(old(tree)@, t, *lower_lstat) ==> r is Ok
                &&& r is Ok ==> exists|made: Seq<NodeView>, m: u32, tm: SystemTime| {
                    &&& resurrect_ok(old(tree)@, t.drop_last(), made, *lower_readdir, *lower_mode, Seq::<Seq<char>>::empty())
                    &&& written_mode(descend_in(ensure_at(old(tree)@, t.drop_last(), made), t), *lower_lstat, absolute_of(t), m)
                    &&& #[trigger] replace_at(ensure_at(old(tree)@, t.drop_last(), made), t, NodeView::File { content: content@, mode: m, mtime: tm })
                        == final(tree)@
                }
            },
        },
{
    let ghost t0 = tree@;
    let norm = match normalize(path) {
        Ok(p) => p,
        Err(e) => {
            return Err(e);
        },
    };
    proof {
        lemma_norm_segs(path@);
        lemma_segments_of_normalized(path@);
        lemma_resolve_dots_of_clean(norm_segs(path@));
        lemma_write_target_clean(tree@, resolve_dots(segments_of(path@)), 0, 0, true);
        if let Some(t) = write_target_of(tree@, path@, true) {
            lemma_segments_of_absolute(t);
        }
    }
    let target = match resolve_write_target(&*tree, norm.as_str(), true) {
        Ok(p) => p,
        Err(e) => {
            return Err(e);
        },
    };
    let is_upper_dir = match tree.descend(target.as_str()) {
        Descend::Found(UpperNode::Dir { .. }) => true,
        _ => false,
    };
    if is_upper_dir {
        return Err(VfsError::IsADirectory(path.to_owned()));
    }
    let quiet = !tree.descend(target.as_str()).is_blocked_or_whiteout() && tree.descend(target.as_str()).content().is_none();
    if quiet {
        let lower_dir = match lower_lstat(target.as_str()) {
            Ok(m) => m.node_type == NodeType::Directory,
            Err(_) => false,
        };
        if lower_dir {
            return Err(VfsError::IsADirectory(path.to_owned()));
        }
    }
    if path_components(target.as_str()).len() == 0 {
        return Err(VfsError::IsADirectory(path.to_owned()));
    }
    let ghost t = segments_of(target@);
    proof {
        if let Some(res) = write_target_of(t0, path@, true) {
            lemma_segments_of_absolute(res);
        }
        crate::vfs::overlay::lemma_write_target_no_links(t0, resolve_dots(segments_of(path@)), 0, 0, true);
    }
    match ensure_parent_dirs(tree, target.as_str(), lower_readdir, lower_mode) {
        Ok(()) => {},
        Err(e) => {
            return Err(e);
        },
    }
    let ghost mid = tree@;
    let upper_mode: Option<u32> = match tree.descend(target.as_str()) {
        Descend::Found(UpperNode::File { mode, .. }) => Some(*mode),
        Descend::Missing => None,
        _ => Some(0o644),
    };
    let mode = match upper_mode {
        Some(m) => m,
        None => {
            let lr = lower_lstat(target.as_str());
            proof {
                assert(probed_result(*lower_lstat, absolute_of(t), lr));
            }
            match lr {
                Ok(m) => m.mode,
                Err(_) => 0o644,
            }
        },
    };
    proof {
        assert(written_mode(descend_in(mid, t), *lower_lstat, absolute_of(t), mode));
    }
    let data = copy_bytes(content);
    proof {
        if writable_at(t0, t, *lower_lstat) {
            let made = choose|made: Seq<NodeView>| {
                &&& resurrect_ok(t0, t.drop_last(), made, *lower_readdir, *lower_mode, Seq::<Seq<char>>::empty())
                &&& #[trigger] ensure_at(t0, t.drop_last(), made) == tree@
            };
            assert(t.drop_last().push(t.last()) =~= t);
            assert forall|tm: SystemTime| #[trigger] attach_fault(tree@, t, NodeView::File { content: data@, mode, mtime: tm }) is None by {
                crate::vfs::overlay_tree::lemma_ensure_then_attach_ok(
                    t0,
                    t.drop_last(),
                    made,
                    *lower_readdir,
                    *lower_mode,
                    Seq::<Seq<char>>::empty(),
                    t.last(),
                    NodeView::File { content: data@, mode, mtime: tm },
                );
            }
        }
    }
    let ghost mid2 = tree@;
    let r = attach_file(tree, target.as_str(), data, mode);
    proof {
        if r is Ok {
            let made = choose|made: Seq<NodeView>| {
                &&& resurrect_ok(t0, t.drop_last(), made, *lower_readdir, *lower_mode, Seq::<Seq<char>>::empty())
                &&& #[trigger] ensure_at(t0, t.drop_last(), made) == mid
            };
            let tm = choose|tm: SystemTime| {
                &&& attach_fault(mid, t, NodeView::File { content: data@, mode, mtime: tm }) is None
                &&& #[trigger] replace_at(mid, t, NodeView::File { content: data@, mode, mtime: tm }) == tree@
            };
            assert(replace_at(ensure_at(t0, t.drop_last(), made), t, NodeView::File { content: content@, mode, mtime: tm }) == tree@);
        }
    }
    r
}

/// `v` is the merged listing of some directory, with some lower answer.
pub open spec fn merged_somewhere(cs: Seq<(Seq<char>, NodeView)>, v: Seq<DirEntry>) -> bool {
    exists|at: Seq<char>, lower: Option<Seq<(Seq<char>, NodeType)>>| #[trigger] listing_is(v, merged_listing(cs, at, lower))
}

/// A listing as plain values, if there is one.
pub open spec fn opt_listing(o: Option<Vec<DirEntry>>) -> Option<Seq<(Seq<char>, NodeType)>> {
    match o {
        Some(v) => Some(listing_view(v@)),
        None => None,
    }
}

/// What the lower layer's directory listing answered for a path spelled
/// `path`, as the merge takes it: the entries, or `None` for an error.
pub open spec fn listing_probed<Ld: Fn(&str) -> Result<Vec<DirEntry>, VfsError>>(
    f: Ld,
    path: Seq<char>,
    lower: Option<Seq<(Seq<char>, NodeType)>>,
) -> bool {
    exists|p: &str, r: Result<Vec<DirEntry>, VfsError>|
        #![trigger call_ensures(f, (p,), r)]
        p@ == path && call_ensures(f, (p,), r) && lower == match r {
            Ok(v) => Some(listing_view(v@)),
            Err(_) => None,
        }
}

/// The merged listing of the directory at `path` (resolved through both
/// layers when that succeeds, taken literally otherwise): the lower
/// entries that no whiteout hides, overridden by the upper ones, sorted
/// by name. The lower layer is listed only when it has the directory.
pub fn readdir_merged<S, R, E, Ld>(
    tree: &OverlayTree,
    path: &str,
    lower_is_symlink: &S,
    lower_readlink: &R,
    lower_exists: &E,
    lower_readdir: &Ld,
) -> (v: Vec<DirEntry>) where
    S: Fn(&str) -> bool,
    R: Fn(&str) -> Result<String, VfsError>,
    E: Fn(&str) -> bool,
    Ld: Fn(&str) -> Result<Vec<DirEntry>, VfsError>,

    requires
        tree.wf(),
        forall|p: &str| lower_is_symlink.requires((p,)),
        forall|p: &str| lower_readlink.requires((p,)),
        forall|p: &str| lower_exists.requires((p,)),
        forall|p: &str| lower_readdir.requires((p,)),
    ensures
        merged_somewhere(tree@, v@),
        exists|at: Seq<char>, lower: Option<Seq<(Seq<char>, NodeType)>>| {
            &&& #[trigger] listing_is(v@, merged_listing(tree@, at, lower))
            &&& (probed(*lower_exists, at, false) && lower is None) || (probed(*lower_exists, at, true) && listing_probed(
                *lower_readdir,
                at,
                lower,
            ))
            &&& forall|links: spec_fn(Seq<char>) -> Option<Result<Seq<char>, VfsError>>|
                #[trigger] answers_as(links, *lower_is_symlink, *lower_readlink) ==> at == match resolve_spec(
                    tree@,
                    path@,
                    true,
                    MAX_SYMLINK_DEPTH as nat,
                    links,
                ) {
                    Ok(segs) => absolute_of(segs),
                    Err(_) => path@,
                }
        },
{
    let at = match resolve_path_depth(tree, path, true, MAX_SYMLINK_DEPTH, lower_is_symlink, lower_readlink) {
        Ok(r) => r,
        Err(_) => string_of_str(path),
    };
    let present = lower_exists(at.as_str());
    proof {
        assert(probed(*lower_exists, at@, present));
    }
    let lower: Option<Vec<DirEntry>> = if present {
        let listed = lower_readdir(at.as_str());
        let ghost lr = listed;
        let l = match listed {
            Ok(v) => Some(v),
            Err(_) => None,
        };
        proof {
            assert(listing_probed(*lower_readdir, at@, opt_listing(l)));
        }
        l
    } else {
        None
    };
    let ghost lv = opt_listing(lower);
    let v = merge_listing(tree, at.as_str(), lower);
    proof {
        assert(listing_is(v@, merged_listing(tree@, at@, lv)));
    }
    v
}

/// The entries of the directory at `path`, following symlinks of both
/// layers: the merged listing of both layers. A path hidden by a whiteout
/// or in neither layer is `NotFound`, a non-directory `NotADirectory`.
pub fn readdir<S, R, E, St, Ld>(
    tree: &OverlayTree,
    path: &str,
    lower_is_symlink: &S,
    lower_readlink: &R,
    lower_exists: &E,
    lower_stat: &St,
    lower_readdir: &Ld,
) -> (r: Result<Vec<DirEntry>, VfsError>) where
    S: Fn(&str) -> bool,
    R: Fn(&str) -> Result<String, VfsError>,
    E: Fn(&str) -> bool,
    St: Fn(&str) -> Result<Metadata, VfsError>,
    Ld: Fn(&str) -> Result<Vec<DirEntry>, VfsError>,

    requires
        tree.wf(),
        forall|p: &str| lower_is_symlink.requires((p,)),
        forall|p: &str| lower_readlink.requires((p,)),
        forall|p: &str| lower_exists.requires((p,)),
        forall|p: &str| lower_stat.requires((p,)),
        forall|p: &str| lower_readdir.requires((p,)),
    ensures
        !starts_with_slash(path@) ==> (r matches Err(e) && not_absolute_error(path@, e)),
        r matches Ok(v) ==> merged_somewhere(tree@, v@),
        forall|links: spec_fn(Seq<char>) -> Option<Result<Seq<char>, VfsError>>|
            #[trigger] answers_as(links, *lower_is_symlink, *lower_readlink) && starts_with_slash(path@) ==> match resolve_spec(
                tree@,
                normalized_absolute(path@),
                true,
                MAX_SYMLINK_DEPTH as nat,
                links,
            ) {
                Err(f) => r matches Err(e) && outcome_is(Err::<String, VfsError>(e), Err(f)),
                Ok(segs) => {
                    let d = descend_in(tree@, segs);
                    &&& hidden_at(d) ==> (r matches Err(VfsError::NotFound(p)) && p@ == path@)
                    &&& (d is Missing && says_absent(*lower_exists, absolute_of(segs))) ==> (r matches Err(VfsError::NotFound(p))
                        && p@ == path@)
                },
            },
{
    let norm = match normalize(path) {
        Ok(p) => p,
        Err(e) => {
            return Err(e);
        },
    };
    let resolved = match resolve_path_depth(tree, norm.as_str(), true, MAX_SYMLINK_DEPTH, lower_is_symlink, lower_readlink) {
        Ok(p) => p,
        Err(e) => {
            return Err(e);
        },
    };
    let ghost segs = segments_of(resolved@);
    proof {
        assert forall|links: spec_fn(Seq<char>) -> Option<Result<Seq<char>, VfsError>>|
            #[trigger] answers_as(links, *lower_is_symlink, *lower_readlink) implies resolve_spec(
            tree@,
            normalized_absolute(path@),
            true,
            MAX_SYMLINK_DEPTH as nat,
            links,
        ) == Ok::<Seq<Seq<char>>, ResolveFault>(segs) by {
            let s = resolve_spec(tree@, norm@, true, MAX_SYMLINK_DEPTH as nat, links);
            if let Ok(x) = s {
                lemma_segments_of_absolute(x);
            }
        }
        lemma_segments_of_absolute(segs);
    }
    if !exists_in_either(tree, resolved.as_str(), lower_exists) {
        return Err(VfsError::NotFound(path.to_owned()));
    }
    let m = match stat(tree, resolved.as_str(), lower_is_symlink, lower_readlink, lower_exists, lower_stat) {
        Ok(m) => m,
        Err(e) => {
            return Err(e);
        },
    };
    if m.node_type != NodeType::Directory {
        return Err(VfsError::NotADirectory(path.to_owned()));
    }
    let v = readdir_merged(tree, resolved.as_str(), lower_is_symlink, lower_readlink, lower_exists, lower_readdir);
    Ok(v)
}

/// `q` is a directory in one of the layers: an upper directory, or, with
/// no upper node there, a path the lower layer's `lstat` answered is a
/// directory.
pub open spec fn dir_in_either<Ls: Fn(&str) -> Result<Metadata, VfsError>>(
    cs: Seq<(Seq<char>, NodeView)>,
    q: Seq<Seq<char>>,
    lower_lstat: Ls,
) -> bool {
    ||| descend_in(cs, q) matches DescendView::Found(NodeView::Dir { .. })
    ||| !(descend_in(cs, q) is Found) && exists|m: Metadata| m.node_type == NodeType::Directory && #[trigger] probed_result(
        lower_lstat,
        absolute_of(q),
        Ok::<Metadata, VfsError>(m),
    )
}

/// Creates the directory at `path` and every missing ancestor (`mkdir
/// -p`): upper symlinks along the path are followed first; existing
/// directories of either layer are kept; a whited-out component is
/// resurrected; a component that is anything but a directory is
/// `NotADirectory`. After a successful `mkdir_p` every prefix of the
/// write target is a directory in one of the layers.
pub fn mkdir_p<E, Ls, G, M>(
    tree: &mut OverlayTree,
    path: &str,
    lower_exists: &E,
    lower_lstat: &Ls,
    lower_readdir: &G,
    lower_mode: &M,
) -> (r: Result<(), VfsError>) where
    E: Fn(&str) -> bool,
    Ls: Fn(&str) -> Result<Metadata, VfsError>,
    G: Fn(&str) -> Option<Vec<String>>,
    M: Fn(&str) -> Option<u32>,

    requires
        old(tree).wf(),
        forall|p: &str| lower_exists.requires((p,)),
        forall|p: &str| lower_lstat.requires((p,)),
        forall|p: &str| lower_readdir.requires((p,)),
        forall|p: &str| lower_mode.requires((p,)),
    ensures
        final(tree).wf(),
        !starts_with_slash(path@) ==> (r matches Err(e) && not_absolute_error(path@, e)) && final(tree)@ == old(tree)@,
        starts_with_slash(path@) ==> match write_target_of(old(tree)@, path@, true) {
            None => (r matches Err(VfsError::SymlinkLoop(p)) && p@ == path@) && final(tree)@ == old(tree)@,
            Some(t) => r is Ok ==> forall|j: int| 1 <= j <= t.len() ==> #[trigger] dir_in_either(final(tree)@, t.take(j), *lower_lstat),
        },
{
    let norm = match resolve_write_target(&*tree, path, true) {
        Ok(p) => p,
        Err(e) => {
            return Err(e);
        },
    };
    let ghost t = write_target_of(tree@, path@, true)->0;
    proof {
        lemma_normalized_is_clean(path@);
        lemma_segments_of_normalized(path@);
        lemma_segments_shape(normalized_absolute(path@));
        lemma_write_target_clean(tree@, resolve_dots(segments_of(path@)), 0, 0, true);
        lemma_segments_of_absolute(t);
    }
    let parts = path_components(norm.as_str());
    let mut built: Vec<String> = Vec::new();
    let mut k: usize = 0;
    proof {
        assert(strings_view(built@) =~= t.take(0));
    }
    while k < parts.len()
        invariant
            tree.wf(),
            forall|p: &str| lower_exists.requires((p,)),
            forall|p: &str| lower_lstat.requires((p,)),
            forall|p: &str| lower_readdir.requires((p,)),
            forall|p: &str| lower_mode.requires((p,)),
            starts_with_slash(path@),
            write_target_of(old(tree)@, path@, true) == Some(t),
            strings_view(parts@) == t,
            clean_segments(t),
            slash_free(t),
            k <= parts.len(),
            strings_view(built@) == t.take(k as int),
            forall|j: int| 1 <= j <= k ==> #[trigger] dir_in_either(tree@, t.take(j), *lower_lstat),
        decreases parts.len() - k,
    {
        let ghost before = tree@;
        let ghost b0 = strings_view(built@);
        let name = parts[k].clone();
        built.push(name);
        let ghost q = t.take(k + 1);
        proof {
            assert(strings_view(built@) =~= b0.push(parts@[k as int]@));
            assert(parts@[k as int]@ == t[k as int]);
            assert(strings_view(built@) =~= q);
            assert(clean_segments(q) && slash_free(q)) by {
                assert forall|a: int, b: int| 0 <= a < q.len() && 0 <= b < q[a].len() implies #[trigger] q[a][b] != '/' by {
                    assert(q[a] == t[a]);
                }
            }
        }
        let here = absolute_path(&built);
        proof {
            lemma_segments_of_absolute(q);
        }
        if tree.descend(here.as_str()).is_blocked_or_whiteout() {
            match tree.ensure_dirs(here.as_str(), lower_readdir, lower_mode) {
                Ok(()) => {},
                Err(e) => {
                    return Err(e);
                },
            }
            proof {
                lemma_ensured_prefixes(before, tree@, q, *lower_readdir, *lower_mode);
                assert forall|j: int| 1 <= j <= k + 1 implies #[trigger] dir_in_either(tree@, t.take(j), *lower_lstat) by {
                    assert(t.take(j) =~= q.take(j));
                }
            }
            k = k + 1;
            continue;
        }
        match tree.meta(here.as_str()) {
            Some(meta) => {
                if meta.node_type != NodeType::Directory {
                    return Err(VfsError::NotADirectory(path.to_owned()));
                }
                proof {
                    assert(descend_in(tree@, q) matches DescendView::Found(NodeView::Dir { .. }));
                }
                k = k + 1;
                continue;
            },
            None => {},
        }
        let present = lower_exists(here.as_str());
        if present {
            let lres = lower_lstat(here.as_str());
            let m = match lres {
                Ok(m) => m,
                Err(e) => {
                    return Err(e);
                },
            };
            if m.node_type != NodeType::Directory {
                return Err(VfsError::NotADirectory(path.to_owned()));
            }
            proof {
                assert(probed_result(*lower_lstat, absolute_of(q), Ok::<Metadata, VfsError>(m)));
                assert(dir_in_either(tree@, q, *lower_lstat));
            }
            k = k + 1;
            continue;
        }
        match tree.ensure_dirs(here.as_str(), lower_readdir, lower_mode) {
            Ok(()) => {},
            Err(e) => {
                return Err(e);
            },
        }
        proof {
            lemma_ensured_prefixes(before, tree@, q, *lower_readdir, *lower_mode);
            assert forall|j: int| 1 <= j <= k + 1 implies #[trigger] dir_in_either(tree@, t.take(j), *lower_lstat) by {
                assert(t.take(j) =~= q.take(j));
            }
        }
        k = k + 1;
    }
    Ok(())
}

/// After `ensure_dirs` at `q` succeeded, every prefix of `q` is an upper
/// directory.
proof fn lemma_ensured_prefixes<G: Fn(&str) -> Option<Vec<String>>, F: Fn(&str) -> Option<u32>>(
    old: Seq<(Seq<char>, NodeView)>,
    new: Seq<(Seq<char>, NodeView)>,
    q: Seq<Seq<char>>,
    g: G,
    f: F,
)
    requires
        wf_children(old),
        ensure_fault(old, q) is None,
        exists|made: Seq<NodeView>| {
            &&& resurrect_ok(old, q, made, g, f, Seq::<Seq<char>>::empty())
            &&& #[trigger] ensure_at(old, q, made) == new
        },
    ensures
        forall|j: int| 1 <= j <= q.len() ==> #[trigger] descend_in(new, q.take(j)) matches DescendView::Found(NodeView::Dir { .. }),
{
    let made = choose|made: Seq<NodeView>| {
        &&& resurrect_ok(old, q, made, g, f, Seq::<Seq<char>>::empty())
        &&& #[trigger] ensure_at(old, q, made) == new
    };
    assert forall|j: int| 1 <= j <= q.len() implies #[trigger] descend_in(new, q.take(j)) matches DescendView::Found(
        NodeView::Dir { .. },
    ) by {
        lemma_ensure_dirs_prefixes(old, q, made, g, f, Seq::<Seq<char>>::empty(), j);
    }
}

// ── Reconciling with the lower layer ───────────────────────────────

/// The two byte strings are equal.
fn bytes_equal(a: &[u8], b: &[u8]) -> (r: bool)
    ensures
        r == (a@ == b@),
{
    if a.len() != b.len() {
        return false;
    }
    let mut k: usize = 0;
    while k < a.len()
        invariant
            a@.len() == b@.len(),
            k <= a@.len(),
            a@.take(k as int) == b@.take(k as int),
        decreases a.len() - k,
    {
        if a[k] != b[k] {
            assert(a@.take(k + 1)[k as int] != b@.take(k + 1)[k as int]);
            assert(a@[k as int] != b@[k as int]);
            return false;
        }
        assert(a@.take(k + 1) =~= b@.take(k + 1));
        k = k + 1;
    }
    assert(a@ =~= a@.take(k as int));
    assert(b@ =~= b@.take(k as int));
    true
}

/// The lower layer's answers say that the upper node `n` at `path` is
/// already there as it is (`m`): a file when `lstat` reports a file and
/// its bytes read back equal; a directory when `lstat` reports one; a
/// symlink when `lstat` reports one and its target reads back equal; a
/// whiteout once the path is gone.
pub open spec fn matches_lower<
    Ls: Fn(&str) -> Result<Metadata, VfsError>,
    Rd: Fn(&str) -> Result<Vec<u8>, VfsError>,
    Rl: Fn(&str) -> Result<String, VfsError>,
    E: Fn(&str) -> bool,
>(n: NodeView, path: Seq<char>, m: bool, lower_lstat: Ls, lower_read: Rd, lower_readlink: Rl, lower_exists: E) -> bool {
    match n {
        NodeView::File { content, .. } => exists|r1: Result<Metadata, VfsError>|
            #[trigger] probed_result(lower_lstat, path, r1) && if r1 matches Ok(meta) && meta.node_type == NodeType::File {
                exists|r2: Result<Vec<u8>, VfsError>| #[trigger] read_probed(lower_read, path, r2) && m == (r2 matches Ok(v) && v@ == content)
            } else {
                !m
            },
        NodeView::Dir { .. } => exists|r1: Result<Metadata, VfsError>|
            #[trigger] probed_result(lower_lstat, path, r1) && m == (r1 matches Ok(meta) && meta.node_type == NodeType::Directory),
        NodeView::Symlink { target, .. } => exists|r1: Result<Metadata, VfsError>|
            #[trigger] probed_result(lower_lstat, path, r1) && if r1 matches Ok(meta) && meta.node_type == NodeType::Symlink {
                exists|r2: Result<String, VfsError>| #[trigger] link_probed(lower_readlink, path, r2) && m == (r2 matches Ok(s) && s@ == target)
            } else {
                !m
            },
        NodeView::Whiteout => probed(lower_exists, path, !m),
    }
}

/// Asks the lower layer whether the upper node `n` at `path` is already
/// there as it is.
fn node_matches_lower<Ls, Rd, Rl, E>(
    n: &UpperNode,
    path: &str,
    lower_lstat: &Ls,
    lower_read: &Rd,
    lower_readlink: &Rl,
    lower_exists: &E,
) -> (m: bool) where
    Ls: Fn(&str) -> Result<Metadata, VfsError>,
    Rd: Fn(&str) -> Result<Vec<u8>, VfsError>,
    Rl: Fn(&str) -> Result<String, VfsError>,
    E: Fn(&str) -> bool,

    requires
        forall|p: &str| lower_lstat.requires((p,)),
        forall|p: &str| lower_read.requires((p,)),
        forall|p: &str| lower_readlink.requires((p,)),
        forall|p: &str| lower_exists.requires((p,)),
    ensures
        matches_lower(crate::vfs::overlay_tree::node_view(*n), path@, m, *lower_lstat, *lower_read, *lower_readlink, *lower_exists),
{
    match n {
        UpperNode::File { content, .. } => {
            let r1 = lower_lstat(path);
            proof {
                assert(probed_result(*lower_lstat, path@, r1));
            }
            let is_file = match &r1 {
                Ok(meta) => meta.node_type == NodeType::File,
                Err(_) => false,
            };
            if !is_file {
                return false;
            }
            let r2 = lower_read(path);
            proof {
                assert(read_probed(*lower_read, path@, r2));
            }
            match r2 {
                Ok(disk) => bytes_equal(disk.as_slice(), content.as_slice()),
                Err(_) => false,
            }
        },
        UpperNode::Dir { .. } => {
            let r1 = lower_lstat(path);
            proof {
                assert(probed_result(*lower_lstat, path@, r1));
            }
            match r1 {
                Ok(meta) => meta.node_type == NodeType::Directory,
                Err(_) => false,
            }
        },
        UpperNode::Symlink { target, .. } => {
            let r1 = lower_lstat(path);
            proof {
                assert(probed_result(*lower_lstat, path@, r1));
            }
            let is_link = match &r1 {
                Ok(meta) => meta.node_type == NodeType::Symlink,
                Err(_) => false,
            };
            if !is_link {
                return false;
            }
            let r2 = lower_readlink(path);
            proof {
                assert(link_probed(*lower_readlink, path@, r2));
            }
            match r2 {
                Ok(disk) => disk == *target,
                Err(_) => false,
            }
        },
        UpperNode::Whiteout => {
            let present = lower_exists(path);
            proof {
                assert(probed(*lower_exists, path@, present));
            }
            !present
        },
    }
}

/// The reconciliation entries for a post-order walk and the lower layer's
/// verdicts `ms`: each path, whether it is a directory, and its verdict.
pub open spec fn sync_triples(es: Seq<(Seq<char>, NodeView)>, ms: Seq<bool>) -> Seq<(Seq<char>, bool, bool)> {
    Seq::new(es.len(), |k: int| (es[k].0, es[k].1 is Dir, ms[k]))
}

/// `new` is `old` reconciled with the lower layer: `ms` holds the lower
/// layer's verdict on each node of `old` in post-order, and the matching
/// ones went as `sync_fold` says.
pub open spec fn synced<
    Ls: Fn(&str) -> Result<Metadata, VfsError>,
    Rd: Fn(&str) -> Result<Vec<u8>, VfsError>,
    Rl: Fn(&str) -> Result<String, VfsError>,
    E: Fn(&str) -> bool,
>(
    old: Seq<(Seq<char>, NodeView)>,
    new: Seq<(Seq<char>, NodeView)>,
    ms: Seq<bool>,
    lower_lstat: Ls,
    lower_read: Rd,
    lower_readlink: Rl,
    lower_exists: E,
) -> bool {
    let es = crate::vfs::overlay_tree::postorder(old, "/"@);
    &&& ms.len() == es.len()
    &&& forall|k: int|
        0 <= k < es.len() ==> matches_lower(es[k].1, es[k].0, #[trigger] ms[k], lower_lstat, lower_read, lower_readlink, lower_exists)
    &&& new == sync_fold(old, sync_triples(es, ms))
}

/// Drops every upper entry that the lower layer now holds as it is (a
/// harness applied it to disk) and every whiteout whose path is gone from
/// the lower layer; a directory goes only once nothing is left below it.
/// What still differs stays.
pub fn sync<Ls, Rd, Rl, E>(tree: &mut OverlayTree, lower_lstat: &Ls, lower_read: &Rd, lower_readlink: &Rl, lower_exists: &E) where
    Ls: Fn(&str) -> Result<Metadata, VfsError>,
    Rd: Fn(&str) -> Result<Vec<u8>, VfsError>,
    Rl: Fn(&str) -> Result<String, VfsError>,
    E: Fn(&str) -> bool,

    requires
        old(tree).wf(),
        forall|p: &str| lower_lstat.requires((p,)),
        forall|p: &str| lower_read.requires((p,)),
        forall|p: &str| lower_readlink.requires((p,)),
        forall|p: &str| lower_exists.requires((p,)),
    ensures
        final(tree).wf(),
        exists|ms: Seq<bool>| #[trigger] synced(old(tree)@, final(tree)@, ms, *lower_lstat, *lower_read, *lower_readlink, *lower_exists),
{
    let ghost es = crate::vfs::overlay_tree::postorder(tree@, "/"@);
    let mut entries: Vec<(String, bool, bool)> = Vec::new();
    let ghost mut ms: Seq<bool> = Seq::empty();
    {
        let walked = tree.walk_post();
        let mut k: usize = 0;
        while k < walked.len()
            invariant
                crate::vfs::overlay_tree::walked_view(walked@) == es,
                k <= walked@.len(),
                ms.len() == k,
                sync_entries_view(entries@) == sync_triples(es.take(k as int), ms),
                es == crate::vfs::overlay_tree::postorder(old(tree)@, "/"@),
                entries@.len() == k,
                forall|j: int|
                    0 <= j < k ==> matches_lower(
                        es[j].1,
                        es[j].0,
                        #[trigger] ms[j],
                        *lower_lstat,
                        *lower_read,
                        *lower_readlink,
                        *lower_exists,
                    ),
                forall|p: &str| lower_lstat.requires((p,)),
                forall|p: &str| lower_read.requires((p,)),
                forall|p: &str| lower_readlink.requires((p,)),
                forall|p: &str| lower_exists.requires((p,)),
            decreases walked.len() - k,
        {
            let path = walked[k].0.as_str();
            let node = walked[k].1;
            let is_dir = match node {
                UpperNode::Dir { .. } => true,
                _ => false,
            };
            let m = node_matches_lower(node, path, lower_lstat, lower_read, lower_readlink, lower_exists);
            let ghost before = entries@;
            entries.push((walked[k].0.clone(), is_dir, m));
            proof {
                assert(es[k as int] == (walked@[k as int].0@, crate::vfs::overlay_tree::node_view(*walked@[k as int].1)));
                let ms0 = ms;
                ms = ms.push(m);
                assert forall|j: int| 0 <= j < k + 1 implies #[trigger] sync_entries_view(entries@)[j] == sync_triples(
                    es.take(k + 1),
                    ms,
                )[j] by {
                    if j < k {
                        assert(entries@[j] == before[j]);
                        assert(sync_entries_view(before)[j] == sync_triples(es.take(k as int), ms0)[j]);
                    }
                }
                assert(sync_entries_view(entries@) =~= sync_triples(es.take(k + 1), ms));
            }
            k = k + 1;
        }
        proof {
            assert(es.take(walked@.len() as int) =~= es);
        }
    }
    sync_apply(tree, &entries);
    proof {
        assert(synced(old(tree)@, tree@, ms, *lower_lstat, *lower_read, *lower_readlink, *lower_exists));
    }
}

} // verus!
