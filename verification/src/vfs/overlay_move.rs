//! Moving and copying entries of the overlay filesystem: `rename` moves a
//! file, symlink or whole directory into the upper tree at the
//! destination and hides the source; `copy` duplicates a file's bytes and
//! mode.
use vstd::prelude::*;

use std::time::SystemTime;

use crate::error::VfsError;
use crate::vfs::overlay::{
    lemma_write_target_clean, lstat_overlay, normalize, not_absolute_error, path_components, probed_result, resolve_write_target,
    MAX_SYMLINK_DEPTH,
};
use crate::vfs::overlay_ops::{
    attach_file, chmod, ensure_parent_dirs, has_content, has_mode, hidden_at, holds_file_at, lemma_found_is_located, lemma_norm_segs,
    lemma_read_after_write, lemma_set_mtime_keeps_file, norm_segs, read_file, readdir_merged, readlink, remove_resolve_error,
    read_probed, says_absent, says_no_dir, stat, whiteout_put, writable_at, write_file, write_target_of,
};
use crate::vfs::overlay_resolve::{answers_as, normal_abs, outcome_is, resolve_path_depth, resolve_spec, ResolveFault};
use crate::vfs::overlay_tree::{
    attach_fault, descend_in, dirs_above, diverge, ensure_at, lemma_attach_then_descend, lemma_detach_hides,
    lemma_ensure_at_keeps_apart, lemma_found_dirs_above, lemma_put_whiteout_blocks, lemma_remove_at_keeps_apart,
    lemma_replace_at_keeps_apart, lemma_replace_at_keeps_dirs, lemma_scaffold_walk, node_view, remove_at, replace_at, scaffold_ok,
    DescendView, NodeView, OverlayTree, UpperNode,
};
use crate::vfs::paths::{
    absolute_of, lemma_normalized_is_clean, lemma_resolve_dots_of_clean, lemma_segments_of_absolute, lemma_segments_of_normalized, normalized_absolute,
    segments_of, starts_with_slash, vfs_join,
};
use crate::vfs::types::{Metadata, NodeType};

verus! {

/// Hides the node at `path`: a whiteout where the lower layer also has
/// the path, a plain removal from the upper tree otherwise.
fn hide_entry<E, M>(tree: &mut OverlayTree, path: &str, lower_exists: &E, lower_mode: &M) where
    E: Fn(&str) -> bool,
    M: Fn(&str) -> Option<u32>,

    requires
        old(tree).wf(),
        forall|p: &str| lower_exists.requires((p,)),
        forall|p: &str| lower_mode.requires((p,)),
    ensures
        final(tree).wf(),
        whiteout_put(old(tree)@, final(tree)@, segments_of(path@), *lower_mode) || final(tree)@ == remove_at(
            old(tree)@,
            segments_of(path@),
        ),
{
    if lower_exists(path) {
        tree.put_whiteout(path, lower_mode);
    } else {
        tree.detach(path);
    }
}

/// After hiding `segs`, the upper tree shows no content there.
proof fn lemma_hide_clears<F: Fn(&str) -> Option<u32>>(
    cur: Seq<(Seq<char>, NodeView)>,
    new: Seq<(Seq<char>, NodeView)>,
    segs: Seq<Seq<char>>,
    f: F,
)
    requires
        crate::vfs::overlay_tree::wf_children(cur),
        whiteout_put(cur, new, segs, f) || new == remove_at(cur, segs),
    ensures
        !has_content(descend_in(new, segs)),
{
    if segs.len() > 0 {
        if whiteout_put(cur, new, segs, f) {
            if crate::vfs::overlay_tree::prefix_clear(cur, segs.drop_last()) {
                let made = choose|made: Seq<NodeView>| {
                    &&& scaffold_ok(cur, segs.drop_last(), made, f, Seq::<Seq<char>>::empty())
                    &&& #[trigger] replace_at(ensure_at(cur, segs.drop_last(), made), segs, NodeView::Whiteout) == new
                };
                lemma_put_whiteout_blocks(cur, segs, made, f, segs);
            } else if descend_in(new, segs) is Found {
                crate::vfs::overlay_ops::lemma_found_prefix_clear(cur, segs);
            }
        } else {
            lemma_detach_hides(cur, segs);
        }
    }
}

/// Hiding `segs` leaves a path that diverges from it as it was.
proof fn lemma_hide_keeps<F: Fn(&str) -> Option<u32>>(
    cur: Seq<(Seq<char>, NodeView)>,
    new: Seq<(Seq<char>, NodeView)>,
    segs: Seq<Seq<char>>,
    f: F,
    t: Seq<Seq<char>>,
)
    requires
        crate::vfs::overlay_tree::wf_children(cur),
        whiteout_put(cur, new, segs, f) || new == remove_at(cur, segs),
        diverge(segs, t),
        dirs_above(cur, t),
    ensures
        dirs_above(new, t),
        descend_in(new, t) == descend_in(cur, t),
{
    if whiteout_put(cur, new, segs, f) {
        if segs.len() > 0 && crate::vfs::overlay_tree::prefix_clear(cur, segs.drop_last()) {
            let p = segs.drop_last();
            let made = choose|made: Seq<NodeView>| {
                &&& scaffold_ok(cur, p, made, f, Seq::<Seq<char>>::empty())
                &&& #[trigger] replace_at(ensure_at(cur, p, made), segs, NodeView::Whiteout) == new
            };
            assert(!t.is_prefix_of(p)) by {
                if t.is_prefix_of(p) {
                    assert(t.is_prefix_of(segs));
                }
            }
            lemma_scaffold_walk(cur, p, made, f, Seq::<Seq<char>>::empty());
            lemma_ensure_at_keeps_apart(cur, p, made, t);
            lemma_replace_at_keeps_apart(ensure_at(cur, p, made), segs, NodeView::Whiteout, t);
        }
    } else {
        lemma_remove_at_keeps_apart(cur, segs, t);
    }
}

/// The upper tree has nothing visible at `path` and the lower layer has a
/// directory there: where the upper tree hides the path or has content
/// there the answer is no without asking the lower layer; otherwise it is
/// what the lower layer's `lstat` answered for `path`.
fn lower_dir_only<Ls>(tree: &OverlayTree, path: &str, lower_lstat: &Ls) -> (b: bool) where
    Ls: Fn(&str) -> Result<Metadata, VfsError>,

    requires
        tree.wf(),
        forall|p: &str| lower_lstat.requires((p,)),
    ensures
        b ==> !hidden_at(descend_in(tree@, segments_of(path@))) && !has_content(descend_in(tree@, segments_of(path@))) && !says_no_dir(
            *lower_lstat,
            path@,
        ),
        hidden_at(descend_in(tree@, segments_of(path@))) || has_content(descend_in(tree@, segments_of(path@))) ==> !b,
        !hidden_at(descend_in(tree@, segments_of(path@))) && !has_content(descend_in(tree@, segments_of(path@))) ==> exists|
            r: Result<Metadata, VfsError>,
        | #[trigger] probed_result(*lower_lstat, path@, r) && b == (r matches Ok(m) && m.node_type == NodeType::Directory),
{
    let d = tree.descend(path);
    if d.is_blocked_or_whiteout() || d.content().is_some() {
        return false;
    }
    let r = lower_lstat(path);
    proof {
        assert(probed_result(*lower_lstat, path@, r));
    }
    match r {
        Ok(m) => m.node_type == NodeType::Directory,
        Err(_) => false,
    }
}

/// Once the parents of a writable target were ensured, attaching a file or
/// symlink there is not refused.
proof fn attach_ok_after_parents<G: Fn(&str) -> Option<Vec<String>>, M: Fn(&str) -> Option<u32>>(
    before: Seq<(Seq<char>, NodeView)>,
    after: Seq<(Seq<char>, NodeView)>,
    t: Seq<Seq<char>>,
    lower_readdir: G,
    lower_mode: M,
    node: NodeView,
)
    requires
        crate::vfs::overlay_tree::wf_children(before),
        t.len() > 0,
        !(node is Dir),
        !(descend_in(before, t) matches DescendView::Found(NodeView::Dir { .. })),
        crate::vfs::overlay_tree::ensure_fault(before, t.drop_last()) is None,
        exists|made: Seq<NodeView>| {
            &&& crate::vfs::overlay_tree::resurrect_ok(before, t.drop_last(), made, lower_readdir, lower_mode, Seq::<Seq<char>>::empty())
            &&& #[trigger] ensure_at(before, t.drop_last(), made) == after
        },
    ensures
        crate::vfs::overlay_tree::attach_fault(after, t, node) is None,
{
    let made = choose|made: Seq<NodeView>| {
        &&& crate::vfs::overlay_tree::resurrect_ok(before, t.drop_last(), made, lower_readdir, lower_mode, Seq::<Seq<char>>::empty())
        &&& #[trigger] ensure_at(before, t.drop_last(), made) == after
    };
    assert(t.drop_last().push(t.last()) =~= t);
    crate::vfs::overlay_tree::lemma_ensure_then_attach_ok(
        before,
        t.drop_last(),
        made,
        lower_readdir,
        lower_mode,
        Seq::<Seq<char>>::empty(),
        t.last(),
        node,
    );
}

/// Reading `at` through the overlay (the upper tree `cs`, symlinks of both
/// layers followed) gives the bytes `v`.
pub open spec fn reads_as<E: Fn(&str) -> bool, Rd: Fn(&str) -> Result<Vec<u8>, VfsError>>(
    cs: Seq<(Seq<char>, NodeView)>,
    at: Seq<char>,
    links: spec_fn(Seq<char>) -> Option<Result<Seq<char>, VfsError>>,
    lower_exists: E,
    lower_read: Rd,
    v: Vec<u8>,
) -> bool {
    resolve_spec(cs, at, true, MAX_SYMLINK_DEPTH as nat, links) matches Ok(s) && crate::vfs::overlay_ops::read_outcome(
        Ok(v),
        cs,
        s,
        at,
        lower_exists,
        lower_read,
    )
}

/// The upper tree holds at `t`, below directories, a symlink to `target`.
pub open spec fn symlink_at(cs: Seq<(Seq<char>, NodeView)>, t: Seq<Seq<char>>, target: Seq<char>) -> bool {
    &&& dirs_above(cs, t)
    &&& descend_in(cs, t) matches DescendView::Found(NodeView::Symlink { target: l, .. }) && l == target
}

/// What stood at `segs` now stands at `t`, below directories: an upper
/// file with its bytes or an upper symlink with its target; for an entry
/// of the lower layer only, what its `lstat` gave decides: a file with the
/// bytes that reading the source through the overlay gave, a symlink with
/// the target that the lower `readlink` gave. Nothing is said of a moved
/// directory or of other nodes.
pub open spec fn moved_to<
    E: Fn(&str) -> bool,
    Rd: Fn(&str) -> Result<Vec<u8>, VfsError>,
    Ls: Fn(&str) -> Result<Metadata, VfsError>,
    R: Fn(&str) -> Result<String, VfsError>,
>(
    old: Seq<(Seq<char>, NodeView)>,
    new: Seq<(Seq<char>, NodeView)>,
    segs: Seq<Seq<char>>,
    t: Seq<Seq<char>>,
    links: spec_fn(Seq<char>) -> Option<Result<Seq<char>, VfsError>>,
    lower_exists: E,
    lower_read: Rd,
    lower_lstat: Ls,
    lower_readlink: R,
) -> bool {
    let at = absolute_of(segs);
    match descend_in(old, segs) {
        DescendView::Found(NodeView::File { content, .. }) => holds_file_at(new, t, content),
        DescendView::Found(NodeView::Symlink { target, .. }) => symlink_at(new, t, target),
        DescendView::Missing => exists|m: Metadata| {
            &&& #[trigger] probed_result(lower_lstat, at, Ok(m))
            &&& m.node_type == NodeType::File ==> exists|v: Vec<u8>|
                #[trigger] reads_as(old, at, links, lower_exists, lower_read, v) && holds_file_at(new, t, v@)
            &&& m.node_type == NodeType::Symlink ==> exists|l: String|
                #[trigger] crate::vfs::overlay_ops::link_probed(lower_readlink, at, Ok(l)) && symlink_at(new, t, l@)
        },
        _ => true,
    }
}

/// Both paths are absolute, they differ once normalized, and no whiteout
/// hides the source: `rename` goes on to resolve the source.
pub open spec fn moving(cs: Seq<(Seq<char>, NodeView)>, src: Seq<char>, dst: Seq<char>) -> bool {
    &&& starts_with_slash(src)
    &&& starts_with_slash(dst)
    &&& normalized_absolute(src) != normalized_absolute(dst)
    &&& !hidden_at(descend_in(cs, norm_segs(src)))
}

/// The outcome of `rename` once the source resolved to `segs`: nothing
/// there in either layer is `NotFound` and changes nothing; a successful
/// move leaves no content at `segs`, went through `dst`'s write target
/// (the final component not followed), and where that target lies apart
/// from `segs` a file or symlink that the upper tree held at `segs` now
/// stands there; moving such a file or symlink succeeds wherever a file
/// could be written at that target.
pub open spec fn rename_outcome<
    E: Fn(&str) -> bool,
    Rd: Fn(&str) -> Result<Vec<u8>, VfsError>,
    Ls: Fn(&str) -> Result<Metadata, VfsError>,
    R: Fn(&str) -> Result<String, VfsError>,
>(
    r: Result<(), VfsError>,
    old: Seq<(Seq<char>, NodeView)>,
    new: Seq<(Seq<char>, NodeView)>,
    segs: Seq<Seq<char>>,
    src: Seq<char>,
    dst: Seq<char>,
    links: spec_fn(Seq<char>) -> Option<Result<Seq<char>, VfsError>>,
    lower_exists: E,
    lower_read: Rd,
    lower_lstat: Ls,
    lower_readlink: R,
) -> bool {
    &&& !has_content(descend_in(old, segs)) && says_absent(lower_exists, absolute_of(segs)) ==> (r matches Err(
        VfsError::NotFound(p),
    ) && p@ == src) && new == old
    &&& r is Ok ==> !has_content(descend_in(new, segs))
    &&& r is Ok ==> (write_target_of(old, dst, false) matches Some(t) && (diverge(t, segs) ==> moved_to(
        old,
        new,
        segs,
        t,
        links,
        lower_exists,
        lower_read,
        lower_lstat,
        lower_readlink,
    )))
    &&& upper_leaf(descend_in(old, segs)) && (write_target_of(old, dst, false) matches Some(t) && writable_at(old, t, lower_lstat))
        ==> r is Ok
}

/// The upper tree holds a file or a symlink there.
pub open spec fn upper_leaf(d: DescendView) -> bool {
    d matches DescendView::Found(NodeView::File { .. }) || d matches DescendView::Found(NodeView::Symlink { .. })
}

/// The contract of `rename` from `src` to `dst`, over the upper tree
/// before (`old`) and after (`new`).
pub open spec fn renamed<
    S: Fn(&str) -> bool,
    R: Fn(&str) -> Result<String, VfsError>,
    E: Fn(&str) -> bool,
    Rd: Fn(&str) -> Result<Vec<u8>, VfsError>,
    Ls: Fn(&str) -> Result<Metadata, VfsError>,
>(
    r: Result<(), VfsError>,
    old: Seq<(Seq<char>, NodeView)>,
    new: Seq<(Seq<char>, NodeView)>,
    src: Seq<char>,
    dst: Seq<char>,
    lower_is_symlink: S,
    lower_readlink: R,
    lower_exists: E,
    lower_read: Rd,
    lower_lstat: Ls,
) -> bool {
    &&& !starts_with_slash(src) ==> (r matches Err(e) && not_absolute_error(src, e)) && new == old
    &&& starts_with_slash(src) && !starts_with_slash(dst) ==> (r matches Err(e) && not_absolute_error(dst, e)) && new == old
    &&& starts_with_slash(src) && starts_with_slash(dst) && normalized_absolute(src) == normalized_absolute(dst) ==> r is Ok && new
        == old
    &&& starts_with_slash(src) && starts_with_slash(dst) && normalized_absolute(src) != normalized_absolute(dst) && hidden_at(
        descend_in(old, norm_segs(src)),
    ) ==> (r matches Err(VfsError::NotFound(p)) && p@ == src) && new == old
    &&& forall|links: spec_fn(Seq<char>) -> Option<Result<Seq<char>, VfsError>>|
        #[trigger] answers_as(links, lower_is_symlink, lower_readlink) && moving(old, src, dst) ==> match resolve_spec(
            old,
            normalized_absolute(src),
            false,
            MAX_SYMLINK_DEPTH as nat,
            links,
        ) {
            Err(f) => remove_resolve_error(r, f, src) && new == old,
            Ok(segs) => rename_outcome(r, old, new, segs, src, dst, links, lower_exists, lower_read, lower_lstat, lower_readlink),
        }
}

/// Moves the node at the resolved path `from` (which one of the layers
/// has) to `dst`'s write target and then hides `from`. A file is read
/// through the overlay and attached with its mode and time; a symlink is
/// attached with its target; a directory is created there and each entry
/// of its merged listing is renamed into it. `levels` bounds how deep
/// directories nest below this one.
fn move_node<S, R, E, Rd, Ls, Ld, G, M>(
    tree: &mut OverlayTree,
    from: &str,
    src: &str,
    dst: &str,
    norm_dst: &str,
    lower_is_symlink: &S,
    lower_readlink: &R,
    lower_exists: &E,
    lower_read: &Rd,
    lower_lstat: &Ls,
    lower_listing: &Ld,
    lower_readdir: &G,
    lower_mode: &M,
    levels: usize,
) -> (r: Result<(), VfsError>) where
    S: Fn(&str) -> bool,
    R: Fn(&str) -> Result<String, VfsError>,
    E: Fn(&str) -> bool,
    Rd: Fn(&str) -> Result<Vec<u8>, VfsError>,
    Ls: Fn(&str) -> Result<Metadata, VfsError>,
    Ld: Fn(&str) -> Result<Vec<crate::vfs::types::DirEntry>, VfsError>,
    G: Fn(&str) -> Option<Vec<String>>,
    M: Fn(&str) -> Option<u32>,

    requires
        old(tree).wf(),
        normal_abs(from@),
        starts_with_slash(dst@),
        norm_dst@ == normalized_absolute(dst@),
        forall|p: &str| lower_is_symlink.requires((p,)),
        forall|p: &str| lower_readlink.requires((p,)),
        forall|p: &str| lower_exists.requires((p,)),
        forall|p: &str| lower_read.requires((p,)),
        forall|p: &str| lower_lstat.requires((p,)),
        forall|p: &str| lower_listing.requires((p,)),
        forall|p: &str| lower_readdir.requires((p,)),
        forall|p: &str| lower_mode.requires((p,)),
    ensures
        final(tree).wf(),
        r is Ok ==> !has_content(descend_in(final(tree)@, segments_of(from@))),
        r is Ok ==> write_target_of(old(tree)@, dst@, false) is Some,
        forall|links: spec_fn(Seq<char>) -> Option<Result<Seq<char>, VfsError>>|
            #[trigger] answers_as(links, *lower_is_symlink, *lower_readlink) ==> (r is Ok ==> match write_target_of(
                old(tree)@,
                dst@,
                false,
            ) {
                Some(t) => diverge(t, segments_of(from@)) ==> moved_to(
                    old(tree)@,
                    final(tree)@,
                    segments_of(from@),
                    t,
                    links,
                    *lower_exists,
                    *lower_read,
                    *lower_lstat,
                    *lower_readlink,
                ),
                None => true,
            }),
        forall|links: spec_fn(Seq<char>) -> Option<Result<Seq<char>, VfsError>>|
            #[trigger] answers_as(links, *lower_is_symlink, *lower_readlink) && upper_leaf(descend_in(old(tree)@, segments_of(from@)))
                && (write_target_of(old(tree)@, dst@, false) matches Some(t) && writable_at(old(tree)@, t, *lower_lstat)) ==> r is Ok,
    decreases levels, 0int,
{
    let ghost segs = segments_of(from@);
    let ghost t0 = tree@;
    proof {
        lemma_norm_segs(dst@);
        lemma_segments_of_normalized(dst@);
        lemma_resolve_dots_of_clean(norm_segs(dst@));
        lemma_write_target_clean(t0, norm_segs(dst@), 0, 0, false);
        crate::vfs::paths::lemma_resolve_dots_of_clean(segs);
        assert(normalized_absolute(from@) == from@);
        assert(norm_segs(from@) == segs);
    }
    let target = match resolve_write_target(&*tree, norm_dst, false) {
        Ok(p) => p,
        Err(e) => {
            return Err(e);
        },
    };
    let ghost t = segments_of(target@);
    proof {
        lemma_segments_of_absolute(write_target_of(t0, dst@, false)->0);
        assert(write_target_of(t0, dst@, false) == Some(t));
        assert(target@ == absolute_of(t));
    }
    let ghost promised = upper_leaf(descend_in(t0, segs)) && writable_at(t0, t, *lower_lstat);
    let meta = match lstat_overlay(&*tree, from, src, lower_exists, lower_lstat) {
        Ok(m) => m,
        Err(e) => {
            return Err(e);
        },
    };
    let ghost mut bytes: Seq<u8> = Seq::empty();
    let ghost mut read_result: Option<Result<Vec<u8>, VfsError>> = None;
    let ghost mut link: Seq<char> = Seq::empty();
    let ghost mut link_text: Option<String> = None;
    match meta.node_type {
        NodeType::File => {
            if lower_dir_only(&*tree, target.as_str(), lower_lstat) {
                assert(!promised);
                return Err(VfsError::IsADirectory(dst.to_owned()));
            }
            let read = read_file(&*tree, from, lower_is_symlink, lower_readlink, lower_exists, lower_read);
            proof {
                read_result = Some(read);
            }
            let content = match read {
                Ok(c) => c,
                Err(e) => {
                    proof {
                        assert forall|links: spec_fn(Seq<char>) -> Option<Result<Seq<char>, VfsError>>|
                            #[trigger] answers_as(links, *lower_is_symlink, *lower_readlink) implies !promised by {
                            if let DescendView::Found(NodeView::File { content, .. }) = descend_in(t0, segs) {
                                lemma_found_dirs_above(t0, segs);
                                lemma_read_after_write(
                                    t0,
                                    segs,
                                    content,
                                    MAX_SYMLINK_DEPTH as nat,
                                    links,
                                    from@,
                                    read,
                                    *lower_exists,
                                    *lower_read,
                                );
                            }
                        }
                    }
                    return Err(e);
                },
            };
            proof {
                bytes = content@;
            }
            match ensure_parent_dirs(tree, target.as_str(), lower_readdir, lower_mode) {
                Ok(()) => {},
                Err(e) => {
                    return Err(e);
                },
            }
            if path_components(target.as_str()).len() == 0 {
                return Err(VfsError::IsADirectory(dst.to_owned()));
            }
            proof {
                if promised {
                    attach_ok_after_parents(t0, tree@, t, *lower_readdir, *lower_mode, NodeView::File { content: content@, mode: meta.mode, mtime: meta.mtime });
                    assert forall|tm: SystemTime| #[trigger] attach_fault(tree@, t, NodeView::File { content: content@, mode: meta.mode, mtime: tm })
                        is None by {
                        attach_ok_after_parents(t0, tree@, t, *lower_readdir, *lower_mode, NodeView::File { content: content@, mode: meta.mode, mtime: tm });
                    }
                }
            }
            match attach_file(tree, target.as_str(), content, meta.mode) {
                Ok(()) => {},
                Err(e) => {
                    return Err(e);
                },
            }
            let ghost t2 = tree@;
            proof {
                lemma_found_is_located(t2, t);
            }
            match tree.set_mtime(target.as_str(), meta.mtime) {
                Ok(()) => {},
                Err(e) => {
                    return Err(e);
                },
            }
            proof {
                lemma_set_mtime_keeps_file(t2, tree@, t, bytes, target@, meta.mtime);
            }
        },
        NodeType::Symlink => {
            if lower_dir_only(&*tree, target.as_str(), lower_lstat) {
                assert(!promised);
                return Err(VfsError::IsADirectory(dst.to_owned()));
            }
            let to = match readlink(&*tree, from, lower_exists, lower_readlink) {
                Ok(l) => l,
                Err(e) => {
                    return Err(e);
                },
            };
            proof {
                link = to@;
                link_text = Some(to);
            }
            match ensure_parent_dirs(tree, target.as_str(), lower_readdir, lower_mode) {
                Ok(()) => {},
                Err(e) => {
                    return Err(e);
                },
            }
            if path_components(target.as_str()).len() == 0 {
                return Err(VfsError::IsADirectory(dst.to_owned()));
            }
            let ghost t1 = tree@;
            let node = UpperNode::Symlink { target: to, mtime: meta.mtime };
            let ghost nv = node_view(node);
            proof {
                if promised {
                    attach_ok_after_parents(t0, tree@, t, *lower_readdir, *lower_mode, nv);
                }
            }
            match tree.attach(target.as_str(), node) {
                Ok(()) => {},
                Err(e) => {
                    return Err(e);
                },
            }
            proof {
                lemma_attach_then_descend(t1, t, nv, t);
                assert forall|k: int| 1 <= k < t.len() implies #[trigger] descend_in(tree@, t.take(k)) matches DescendView::Found(
                    NodeView::Dir { .. },
                ) by {
                    lemma_replace_at_keeps_dirs(t1, t, nv, k);
                }
            }
        },
        NodeType::Directory => {
            if levels == 0 {
                return Err(VfsError::IoError(String::from_str("directories nest too deep to move")));
            }
            match tree.ensure_dirs(target.as_str(), lower_readdir, lower_mode) {
                Ok(()) => {},
                Err(e) => {
                    return Err(e);
                },
            }
            let entries = readdir_merged(&*tree, from, lower_is_symlink, lower_readlink, lower_exists, lower_listing);
            let mut i: usize = 0;
            while i < entries.len()
                invariant
                    tree.wf(),
                    i <= entries.len(),
                    levels > 0,
                    !(upper_leaf(descend_in(t0, segs)) && writable_at(t0, t, *lower_lstat)),
                    t0 == old(tree)@,
                    segs == segments_of(from@),
                    write_target_of(t0, dst@, false) == Some(t),
                    forall|p: &str| lower_is_symlink.requires((p,)),
                    forall|p: &str| lower_readlink.requires((p,)),
                    forall|p: &str| lower_exists.requires((p,)),
                    forall|p: &str| lower_read.requires((p,)),
                    forall|p: &str| lower_lstat.requires((p,)),
                    forall|p: &str| lower_listing.requires((p,)),
                    forall|p: &str| lower_readdir.requires((p,)),
                    forall|p: &str| lower_mode.requires((p,)),
                decreases entries.len() - i,
            {
                let child_src = vfs_join(from, entries[i].name.as_str());
                let child_dst = vfs_join(target.as_str(), entries[i].name.as_str());
                match rename_within(
                    tree,
                    child_src.as_str(),
                    child_dst.as_str(),
                    lower_is_symlink,
                    lower_readlink,
                    lower_exists,
                    lower_read,
                    lower_lstat,
                    lower_listing,
                    lower_readdir,
                    lower_mode,
                    levels - 1,
                ) {
                    Ok(()) => {},
                    Err(e) => {
                        return Err(e);
                    },
                }
                i = i + 1;
            }
        },
    }
    let ghost t3 = tree@;
    hide_entry(tree, from, lower_exists, lower_mode);
    proof {
        lemma_hide_clears(t3, tree@, segs, *lower_mode);
        assert(normalized_absolute(from@) == from@);
        assert(norm_segs(from@) == segs);
        assert forall|links: spec_fn(Seq<char>) -> Option<Result<Seq<char>, VfsError>>|
            #[trigger] answers_as(links, *lower_is_symlink, *lower_readlink) && diverge(t, segs) implies moved_to(
            t0,
            tree@,
            segs,
            t,
            links,
            *lower_exists,
            *lower_read,
            *lower_lstat,
            *lower_readlink,
        ) by {
            match descend_in(t0, segs) {
                DescendView::Found(NodeView::File { content, .. }) => {
                    lemma_found_dirs_above(t0, segs);
                    lemma_read_after_write(t0, segs, content, MAX_SYMLINK_DEPTH as nat, links, from@, read_result->0, *lower_exists, *lower_read);
                    assert(bytes == content);
                    lemma_hide_keeps(t3, tree@, segs, *lower_mode, t);
                },
                DescendView::Found(NodeView::Symlink { target: l, .. }) => {
                    assert(link == l);
                    lemma_hide_keeps(t3, tree@, segs, *lower_mode, t);
                },
                DescendView::Missing => {
                    let at = absolute_of(segs);
                    assert(probed_result(*lower_lstat, at, Ok(meta)));
                    if meta.node_type == NodeType::File {
                        let v = read_result->0->Ok_0;
                        assert(reads_as(t0, at, links, *lower_exists, *lower_read, v));
                        lemma_hide_keeps(t3, tree@, segs, *lower_mode, t);
                        assert(holds_file_at(tree@, t, v@));
                    }
                    if meta.node_type == NodeType::Symlink {
                        let l = link_text->0;
                        assert(crate::vfs::overlay_ops::link_probed(*lower_readlink, at, Ok(l)));
                        lemma_hide_keeps(t3, tree@, segs, *lower_mode, t);
                        assert(symlink_at(tree@, t, l@));
                    }
                },
                _ => {},
            }
        }
    }
    Ok(())
}

/// `rename` with at most `levels` levels of directories below the source.
fn rename_within<S, R, E, Rd, Ls, Ld, G, M>(
    tree: &mut OverlayTree,
    src: &str,
    dst: &str,
    lower_is_symlink: &S,
    lower_readlink: &R,
    lower_exists: &E,
    lower_read: &Rd,
    lower_lstat: &Ls,
    lower_listing: &Ld,
    lower_readdir: &G,
    lower_mode: &M,
    levels: usize,
) -> (r: Result<(), VfsError>) where
    S: Fn(&str) -> bool,
    R: Fn(&str) -> Result<String, VfsError>,
    E: Fn(&str) -> bool,
    Rd: Fn(&str) -> Result<Vec<u8>, VfsError>,
    Ls: Fn(&str) -> Result<Metadata, VfsError>,
    Ld: Fn(&str) -> Result<Vec<crate::vfs::types::DirEntry>, VfsError>,
    G: Fn(&str) -> Option<Vec<String>>,
    M: Fn(&str) -> Option<u32>,

    requires
        old(tree).wf(),
        forall|p: &str| lower_is_symlink.requires((p,)),
        forall|p: &str| lower_readlink.requires((p,)),
        forall|p: &str| lower_exists.requires((p,)),
        forall|p: &str| lower_read.requires((p,)),
        forall|p: &str| lower_lstat.requires((p,)),
        forall|p: &str| lower_listing.requires((p,)),
        forall|p: &str| lower_readdir.requires((p,)),
        forall|p: &str| lower_mode.requires((p,)),
    ensures
        final(tree).wf(),
        renamed(
            r,
            old(tree)@,
            final(tree)@,
            src@,
            dst@,
            *lower_is_symlink,
            *lower_readlink,
            *lower_exists,
            *lower_read,
            *lower_lstat,
        ),
    decreases levels, 1int,
{
    let norm_src = match normalize(src) {
        Ok(p) => p,
        Err(e) => {
            return Err(e);
        },
    };
    let norm_dst = match normalize(dst) {
        Ok(p) => p,
        Err(e) => {
            return Err(e);
        },
    };
    if norm_src == norm_dst {
        return Ok(());
    }
    if tree.descend(norm_src.as_str()).is_blocked_or_whiteout() {
        return Err(VfsError::NotFound(src.to_owned()));
    }
    let ghost old_view = tree@;
    let from = match resolve_path_depth(&*tree, norm_src.as_str(), false, MAX_SYMLINK_DEPTH, lower_is_symlink, lower_readlink) {
        Ok(p) => p,
        Err(e) => {
            let err = match e {
                VfsError::NotFound(_) => VfsError::NotFound(src.to_owned()),
                other => other,
            };
            return Err(err);
        },
    };
    let ghost segs = segments_of(from@);
    proof {
        assert forall|links: spec_fn(Seq<char>) -> Option<Result<Seq<char>, VfsError>>|
            #[trigger] answers_as(links, *lower_is_symlink, *lower_readlink) implies resolve_spec(
            old_view,
            normalized_absolute(src@),
            false,
            MAX_SYMLINK_DEPTH as nat,
            links,
        ) == Ok::<Seq<Seq<char>>, ResolveFault>(segs) by {
            let s = resolve_spec(old_view, norm_src@, false, MAX_SYMLINK_DEPTH as nat, links);
            if let Ok(x) = s {
                lemma_segments_of_absolute(x);
            }
        }
    }
    let in_upper = tree.descend(from.as_str()).content().is_some();
    let in_lower = lower_exists(from.as_str());
    if !in_upper && !in_lower {
        return Err(VfsError::NotFound(src.to_owned()));
    }
    proof {
        assert(absolute_of(segs) == from@);
    }
    move_node(
        tree,
        from.as_str(),
        src,
        dst,
        norm_dst.as_str(),
        lower_is_symlink,
        lower_readlink,
        lower_exists,
        lower_read,
        lower_lstat,
        lower_listing,
        lower_readdir,
        lower_mode,
        levels,
    )
}

/// Read after rename: once a rename from `src` to `dst` succeeded and the
/// source was a file of the upper tree, and the destination's write target
/// `t` lies apart from where the source resolved, resolving `t` ends at
/// `t` whatever the lower layer holds, and reading it gives the file's
/// bytes.
pub proof fn lemma_read_after_rename<
    E: Fn(&str) -> bool,
    Ls: Fn(&str) -> Result<Metadata, VfsError>,
    Rd: Fn(&str) -> Result<Vec<u8>, VfsError>,
    R: Fn(&str) -> Result<String, VfsError>,
>(
    old: Seq<(Seq<char>, NodeView)>,
    new: Seq<(Seq<char>, NodeView)>,
    segs: Seq<Seq<char>>,
    src: Seq<char>,
    dst: Seq<char>,
    t: Seq<Seq<char>>,
    content: Seq<u8>,
    mode: u32,
    mtime: SystemTime,
    links: spec_fn(Seq<char>) -> Option<Result<Seq<char>, VfsError>>,
    r: Result<Vec<u8>, VfsError>,
    lower_exists: E,
    lower_lstat: Ls,
    lower_read: Rd,
    lower_readlink: R,
)
    requires
        starts_with_slash(dst),
        rename_outcome(Ok(()), old, new, segs, src, dst, links, lower_exists, lower_read, lower_lstat, lower_readlink),
        descend_in(old, segs) == DescendView::Found(NodeView::File { content, mode, mtime }),
        write_target_of(old, dst, false) == Some(t),
        diverge(t, segs),
    ensures
        resolve_spec(new, absolute_of(t), true, MAX_SYMLINK_DEPTH as nat, links) == Ok::<Seq<Seq<char>>, ResolveFault>(t),
        crate::vfs::overlay_ops::read_outcome(r, new, t, absolute_of(t), lower_exists, lower_read) ==> (r matches Ok(v) && v@ == content),
{
    lemma_norm_segs(dst);
    lemma_segments_of_normalized(dst);
    lemma_resolve_dots_of_clean(norm_segs(dst));
    lemma_write_target_clean(old, norm_segs(dst), 0, 0, false);
    lemma_read_after_write(new, t, content, MAX_SYMLINK_DEPTH as nat, links, absolute_of(t), r, lower_exists, lower_read);
}

/// Renames `src` to `dst`, POSIX style: onto itself it does nothing; the
/// source's mid-path symlinks (of both layers) are followed and its final
/// component is not (a symlink is moved as a link); the destination's
/// upper symlinks are followed except a final one, which is replaced. A
/// file or symlink is attached at the destination (a file keeps its mode
/// and time; landing on a directory of the lower layer only is
/// `IsADirectory`), a directory is created there and its entries are
/// renamed into it one by one; the source is hidden last. (Directories
/// nested more than `usize::MAX` levels deep, which no memory holds, are
/// refused with `IoError`.)
pub fn rename<S, R, E, Rd, Ls, Ld, G, M>(
    tree: &mut OverlayTree,
    src: &str,
    dst: &str,
    lower_is_symlink: &S,
    lower_readlink: &R,
    lower_exists: &E,
    lower_read: &Rd,
    lower_lstat: &Ls,
    lower_listing: &Ld,
    lower_readdir: &G,
    lower_mode: &M,
) -> (r: Result<(), VfsError>) where
    S: Fn(&str) -> bool,
    R: Fn(&str) -> Result<String, VfsError>,
    E: Fn(&str) -> bool,
    Rd: Fn(&str) -> Result<Vec<u8>, VfsError>,
    Ls: Fn(&str) -> Result<Metadata, VfsError>,
    Ld: Fn(&str) -> Result<Vec<crate::vfs::types::DirEntry>, VfsError>,
    G: Fn(&str) -> Option<Vec<String>>,
    M: Fn(&str) -> Option<u32>,

    requires
        old(tree).wf(),
        forall|p: &str| lower_is_symlink.requires((p,)),
        forall|p: &str| lower_readlink.requires((p,)),
        forall|p: &str| lower_exists.requires((p,)),
        forall|p: &str| lower_read.requires((p,)),
        forall|p: &str| lower_lstat.requires((p,)),
        forall|p: &str| lower_listing.requires((p,)),
        forall|p: &str| lower_readdir.requires((p,)),
        forall|p: &str| lower_mode.requires((p,)),
    ensures
        final(tree).wf(),
        renamed(
            r,
            old(tree)@,
            final(tree)@,
            src@,
            dst@,
            *lower_is_symlink,
            *lower_readlink,
            *lower_exists,
            *lower_read,
            *lower_lstat,
        ),
{
    rename_within(
        tree,
        src,
        dst,
        lower_is_symlink,
        lower_readlink,
        lower_exists,
        lower_read,
        lower_lstat,
        lower_listing,
        lower_readdir,
        lower_mode,
        usize::MAX,
    )
}

/// What `copy` answers once the source resolved to `segs`, with `tt`
/// the write target of the destination: a directory there is
/// `IsADirectory` and a whiteout, a file above it or nothing in either
/// layer (when the existence probe never says yes there) is `NotFound`,
/// all for the normalized source `from` and changing nothing. A successful
/// copy leaves at the target `t` a file, below upper directories, with the
/// source's bytes and mode: those of the upper file, or what the lower
/// read and stat gave. Copying an upper file succeeds wherever a file can
/// be written at `t`.
pub open spec fn copy_outcome<
    E: Fn(&str) -> bool,
    Rd: Fn(&str) -> Result<Vec<u8>, VfsError>,
    St: Fn(&str) -> Result<Metadata, VfsError>,
    Ls: Fn(&str) -> Result<Metadata, VfsError>,
>(
    r: Result<(), VfsError>,
    old: Seq<(Seq<char>, NodeView)>,
    new: Seq<(Seq<char>, NodeView)>,
    segs: Seq<Seq<char>>,
    from: Seq<char>,
    tt: Option<Seq<Seq<char>>>,
    lower_exists: E,
    lower_read: Rd,
    lower_stat: St,
    lower_lstat: Ls,
) -> bool {
    match descend_in(old, segs) {
        DescendView::Found(NodeView::Dir { .. }) => (r matches Err(VfsError::IsADirectory(p)) && p@ == from) && new == old,
        DescendView::Found(NodeView::File { content, mode, .. }) => {
            &&& r is Ok ==> (tt matches Some(t) && holds_file_at(new, t, content) && has_mode(descend_in(new, t), mode))
            &&& (tt matches Some(t) && writable_at(old, t, lower_lstat)) ==> r is Ok
        },
        DescendView::Missing => {
            &&& says_absent(lower_exists, absolute_of(segs)) ==> (r matches Err(VfsError::NotFound(p)) && p@ == from) && new == old
            &&& r is Ok ==> (tt matches Some(t) && (exists|v: Vec<u8>|
                #[trigger] read_probed(lower_read, absolute_of(segs), Ok(v)) && holds_file_at(new, t, v@)) && (exists|m: Metadata|
                #[trigger] probed_result(lower_stat, absolute_of(segs), Ok(m)) && has_mode(descend_in(new, t), m.mode)))
        },
        _ => (r matches Err(VfsError::NotFound(p)) && p@ == from) && new == old,
    }
}

/// Copies the file at `src` to `dst`: its bytes are read through the
/// overlay (symlinks of both layers followed), written to `dst` as
/// `write_file` writes, and the file written then takes the source's mode.
pub fn copy<S, R, E, Rd, St, Ls, G, M>(
    tree: &mut OverlayTree,
    src: &str,
    dst: &str,
    lower_is_symlink: &S,
    lower_readlink: &R,
    lower_exists: &E,
    lower_read: &Rd,
    lower_stat: &St,
    lower_lstat: &Ls,
    lower_readdir: &G,
    lower_mode: &M,
) -> (r: Result<(), VfsError>) where
    S: Fn(&str) -> bool,
    R: Fn(&str) -> Result<String, VfsError>,
    E: Fn(&str) -> bool,
    Rd: Fn(&str) -> Result<Vec<u8>, VfsError>,
    St: Fn(&str) -> Result<Metadata, VfsError>,
    Ls: Fn(&str) -> Result<Metadata, VfsError>,
    G: Fn(&str) -> Option<Vec<String>>,
    M: Fn(&str) -> Option<u32>,

    requires
        old(tree).wf(),
        forall|p: &str| lower_is_symlink.requires((p,)),
        forall|p: &str| lower_readlink.requires((p,)),
        forall|p: &str| lower_exists.requires((p,)),
        forall|p: &str| lower_read.requires((p,)),
        forall|p: &str| lower_stat.requires((p,)),
        forall|p: &str| lower_lstat.requires((p,)),
        forall|p: &str| lower_readdir.requires((p,)),
        forall|p: &str| lower_mode.requires((p,)),
    ensures
        final(tree).wf(),
        !starts_with_slash(src@) ==> (r matches Err(e) && not_absolute_error(src@, e)) && final(tree)@ == old(tree)@,
        starts_with_slash(src@) && !starts_with_slash(dst@) ==> (r matches Err(e) && not_absolute_error(dst@, e)) && final(tree)@
            == old(tree)@,
        forall|links: spec_fn(Seq<char>) -> Option<Result<Seq<char>, VfsError>>|
            #[trigger] answers_as(links, *lower_is_symlink, *lower_readlink) && starts_with_slash(src@) && starts_with_slash(dst@)
                ==> match resolve_spec(old(tree)@, normalized_absolute(src@), true, MAX_SYMLINK_DEPTH as nat, links) {
                Err(f) => (r matches Err(e) && outcome_is(Err::<String, VfsError>(e), Err(f))) && final(tree)@ == old(tree)@,
                Ok(segs) => copy_outcome(
                    r,
                    old(tree)@,
                    final(tree)@,
                    segs,
                    normalized_absolute(src@),
                    write_target_of(old(tree)@, dst@, true),
                    *lower_exists,
                    *lower_read,
                    *lower_stat,
                    *lower_lstat,
                ),
            },
{
    let norm_src = match normalize(src) {
        Ok(p) => p,
        Err(e) => {
            return Err(e);
        },
    };
    let norm_dst = match normalize(dst) {
        Ok(p) => p,
        Err(e) => {
            return Err(e);
        },
    };
    proof {
        crate::vfs::paths::lemma_normalize_idempotent(src@);
        crate::vfs::paths::lemma_normalized_is_clean(src@);
    }
    let content = match read_file(&*tree, norm_src.as_str(), lower_is_symlink, lower_readlink, lower_exists, lower_read) {
        Ok(c) => c,
        Err(e) => {
            return Err(e);
        },
    };
    let meta = match stat(&*tree, norm_src.as_str(), lower_is_symlink, lower_readlink, lower_exists, lower_stat) {
        Ok(m) => m,
        Err(e) => {
            return Err(e);
        },
    };
    let ghost t0 = tree@;
    proof {
        lemma_segments_of_normalized(dst@);
        lemma_segments_of_normalized(norm_dst@);
        lemma_normalized_is_clean(dst@);
        lemma_resolve_dots_of_clean(segments_of(norm_dst@));
        assert(write_target_of(t0, norm_dst@, true) == write_target_of(t0, dst@, true));
        crate::vfs::overlay::lemma_write_target_normalized(t0, norm_dst@, true);
    }
    let target = resolve_write_target(&*tree, norm_dst.as_str(), true);
    match write_file(tree, norm_dst.as_str(), content.as_slice(), lower_lstat, lower_readdir, lower_mode) {
        Ok(()) => {},
        Err(e) => {
            return Err(e);
        },
    }
    let ghost t1 = tree@;
    let ghost t = write_target_of(t0, dst@, true)->0;
    let target = match target {
        Ok(p) => p,
        Err(e) => {
            return Err(e);
        },
    };
    proof {
        assert(target@ == absolute_of(t));
        lemma_segments_of_absolute(t);
        crate::vfs::overlay_tree::lemma_found_dirs_above(t1, t);
    }
    let r = chmod(
        tree,
        target.as_str(),
        meta.mode,
        lower_is_symlink,
        lower_readlink,
        lower_exists,
        lower_lstat,
        lower_read,
        lower_stat,
        lower_readdir,
        lower_mode,
    );
    proof {
        let n = descend_in(t1, t)->Found_0;
        assert(n is File);
        lemma_found_is_located(t1, t);
        let n2 = crate::vfs::overlay_tree::edited(n, crate::vfs::overlay_tree::Edit::Mode(meta.mode))->0;
        crate::vfs::overlay_tree::lemma_descend_replace_at(t1, t, n2, t);
        assert(t.skip(t.len() as int) =~= Seq::<Seq<char>>::empty());
        assert(has_mode(descend_in(replace_at(t1, t, n2), t), meta.mode));
        assert forall|k: int| 1 <= k < t.len() implies #[trigger] descend_in(replace_at(t1, t, n2), t.take(k)) matches DescendView::Found(
            NodeView::Dir { .. },
        ) by {
            lemma_replace_at_keeps_dirs(t1, t, n2, k);
        }
        assert(holds_file_at(replace_at(t1, t, n2), t, content@));
        assert forall|links: spec_fn(Seq<char>) -> Option<Result<Seq<char>, VfsError>>|
            #[trigger] answers_as(links, *lower_is_symlink, *lower_readlink) implies r is Ok && tree@ == replace_at(t1, t, n2) by {
            lemma_read_after_write(t1, t, content@, MAX_SYMLINK_DEPTH as nat, links, target@, Err(VfsError::NotFound(target)), *lower_exists, *lower_read);
        }
    }
    match r {
        Ok(()) => Ok(()),
        Err(e) => Err(e),
    }
}

} // verus!
