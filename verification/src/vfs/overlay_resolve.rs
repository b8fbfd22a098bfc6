//! Path resolution through both layers of the overlay: component by
//! component, the upper tree decides first (a whiteout hides, an upper
//! entry of any type shadows the lower one), and only where the upper tree
//! has nothing is the lower layer asked whether the component is a symlink
//! and, if it must be followed, where it points. The two lower-layer probes
//! are the caller's.
use vstd::prelude::*;

use crate::error::VfsError;
use crate::vfs::overlay::{absolute_path, append_strings, normalize, not_absolute_error, path_components};
use crate::vfs::overlay_tree::{descend_in, strings_view, Descend, DescendView, NodeView, OverlayTree, UpperNode};
use crate::vfs::paths::{
    absolute_of, clean_segments, joined, lemma_normalized_is_clean, lemma_segments_of_absolute,
    lemma_segments_of_normalized, lemma_segments_shape, normalized_absolute, resolve_dots, segments_of, slash_free,
    starts_with_slash, trim_leading_slashes, vfs_append, vfs_path_is_absolute,
};

verus! {

/// Why a resolution fails, over plain values: too many symlink hops (for
/// the path being resolved at that depth), a whiteout at or above a
/// component, a non-directory in place of a directory (both for the path
/// asked about), a path that is not absolute, or a lower-layer link whose
/// target could not be read.
pub enum ResolveFault {
    Loop(Seq<char>),
    Hidden(Seq<char>),
    NotDir(Seq<char>),
    NotAbsolute(Seq<char>),
    Lower(VfsError),
}

/// A relative multi-component path appended to `base` (leading `/` of
/// `rel` dropped; nothing left of it leaves `base` as it is).
pub open spec fn appended(base: Seq<char>, rel: Seq<char>) -> Seq<char> {
    if trim_leading_slashes(rel).len() == 0 {
        base
    } else {
        joined(base, trim_leading_slashes(rel))
    }
}

/// Where a symlink met below `base` points: an absolute target as it is, a
/// relative one appended to `base`.
pub open spec fn link_target(base: Seq<Seq<char>>, target: Seq<char>) -> Seq<char> {
    if starts_with_slash(target) {
        target
    } else {
        appended(absolute_of(base), target)
    }
}

/// Resolution of `path` with `depth` symlink hops left. `lower` says, per
/// absolute path, what the lower layer holds there as far as resolution
/// asks: `None` for anything but a symlink, `Some(Ok(t))` for a symlink to
/// `t`, `Some(Err(e))` for a symlink whose target cannot be read. The
/// result is the segment list of the resolved path.
pub open spec fn resolve_spec(
    cs: Seq<(Seq<char>, NodeView)>,
    path: Seq<char>,
    follow_final: bool,
    depth: nat,
    lower: spec_fn(Seq<char>) -> Option<Result<Seq<char>, VfsError>>,
) -> Result<Seq<Seq<char>>, ResolveFault>
    decreases depth, 1int, 0int,
{
    if depth == 0 {
        Err(ResolveFault::Loop(path))
    } else if !starts_with_slash(path) {
        Err(ResolveFault::NotAbsolute(path))
    } else {
        walk_spec(cs, resolve_dots(segments_of(path)), 0, seq![], path, follow_final, depth, lower)
    }
}

/// The component walk of a resolution: `parts` from `i` on, with the
/// components before it resolved to `resolved`. A symlink (in the upper
/// tree, or in the lower layer where the upper tree has nothing) is
/// followed unless it is the last component and `follow_final` is off;
/// following it resolves its target with one hop less and continues below
/// the result.
pub open spec fn walk_spec(
    cs: Seq<(Seq<char>, NodeView)>,
    parts: Seq<Seq<char>>,
    i: int,
    resolved: Seq<Seq<char>>,
    orig: Seq<char>,
    follow_final: bool,
    depth: nat,
    lower: spec_fn(Seq<char>) -> Option<Result<Seq<char>, VfsError>>,
) -> Result<Seq<Seq<char>>, ResolveFault>
    decreases depth, 0int, parts.len() - i,
{
    if i < 0 || i >= parts.len() {
        Ok(resolved)
    } else {
        let cand = resolved.push(parts[i]);
        let keep = i == parts.len() - 1 && !follow_final;
        match descend_in(cs, cand) {
            DescendView::Found(NodeView::Whiteout) => Err(ResolveFault::Hidden(orig)),
            DescendView::Blocked => Err(ResolveFault::Hidden(orig)),
            DescendView::NotDir => Err(ResolveFault::NotDir(orig)),
            DescendView::Found(NodeView::Symlink { target, .. }) => {
                if keep {
                    walk_spec(cs, parts, i + 1, cand, orig, follow_final, depth, lower)
                } else {
                    let sub = if depth > 0 {
                        resolve_spec(cs, link_target(resolved, target), true, (depth - 1) as nat, lower)
                    } else {
                        Err(ResolveFault::Loop(link_target(resolved, target)))
                    };
                    match sub {
                        Ok(r) => walk_spec(cs, parts, i + 1, r, orig, follow_final, depth, lower),
                        Err(e) => Err(e),
                    }
                }
            },
            DescendView::Found(_) => walk_spec(cs, parts, i + 1, cand, orig, follow_final, depth, lower),
            DescendView::Missing => match lower(absolute_of(cand)) {
                None => walk_spec(cs, parts, i + 1, cand, orig, follow_final, depth, lower),
                Some(link) => {
                    if keep {
                        walk_spec(cs, parts, i + 1, cand, orig, follow_final, depth, lower)
                    } else {
                        match link {
                            Ok(t) => {
                                let sub = if depth > 0 {
                                    resolve_spec(cs, link_target(resolved, t), true, (depth - 1) as nat, lower)
                                } else {
                                    Err(ResolveFault::Loop(link_target(resolved, t)))
                                };
                                match sub {
                                    Ok(r) => walk_spec(cs, parts, i + 1, r, orig, follow_final, depth, lower),
                                    Err(e) => Err(e),
                                }
                            },
                            Err(e) => Err(ResolveFault::Lower(e)),
                        }
                    }
                },
            },
        }
    }
}

/// What the readlink probe may answer for a path that `lower` describes.
pub open spec fn read_as(link: Option<Result<Seq<char>, VfsError>>, r: Result<String, VfsError>) -> bool {
    match link {
        Some(Ok(t)) => r matches Ok(s) && s@ == t,
        Some(Err(e)) => r == Err::<String, VfsError>(e),
        None => true,
    }
}

/// The two lower-layer probes answer as `lower` says: the symlink probe
/// says whether a path is a symlink there, and the readlink probe gives the
/// target of a symlink (or the error reading it).
pub open spec fn answers_as<F: Fn(&str) -> bool, G: Fn(&str) -> Result<String, VfsError>>(
    lower: spec_fn(Seq<char>) -> Option<Result<Seq<char>, VfsError>>,
    is_symlink: F,
    readlink: G,
) -> bool {
    &&& forall|p: &str, b: bool| #[trigger] call_ensures(is_symlink, (p,), b) ==> b == (lower(p@) is Some)
    &&& forall|p: &str, r: Result<String, VfsError>| #[trigger] call_ensures(readlink, (p,), r) ==> read_as(lower(p@), r)
}

/// `r` is what the resolution `s` stands for: the path of the resolved
/// segments (which are in normal form), or the error of the fault.
pub open spec fn outcome_is(r: Result<String, VfsError>, s: Result<Seq<Seq<char>>, ResolveFault>) -> bool {
    match s {
        Ok(segs) => r matches Ok(p) && p@ == absolute_of(segs) && clean_segments(segs) && slash_free(segs),
        Err(ResolveFault::Loop(p)) => r matches Err(VfsError::SymlinkLoop(q)) && q@ == p,
        Err(ResolveFault::Hidden(p)) => r matches Err(VfsError::NotFound(q)) && q@ == p,
        Err(ResolveFault::NotDir(p)) => r matches Err(VfsError::NotADirectory(q)) && q@ == p,
        Err(ResolveFault::NotAbsolute(p)) => r matches Err(e) && not_absolute_error(p, e),
        Err(ResolveFault::Lower(e)) => r == Err::<String, VfsError>(e),
    }
}

/// A normalized absolute path: `/` and its segments, none empty, `.` or
/// `..`.
pub open spec fn normal_abs(p: Seq<char>) -> bool {
    &&& p == absolute_of(segments_of(p))
    &&& clean_segments(segments_of(p))
    &&& slash_free(segments_of(p))
}

/// The upper tree's verdict on one component.
enum UpperStep {
    Hidden,
    NotDir,
    Link(String),
    Plain,
    AskLower,
}

/// Resolves `path` through both layers with `depth` symlink hops left,
/// following the final component when `follow_final`. Every outcome is a
/// normalized absolute path or an error; no hop left is `SymlinkLoop` for
/// `path`, a relative path `InvalidPath`. When the probes answer as some
/// lower layer `lower` says, the outcome is the one `resolve_spec` gives
/// for it.
pub fn resolve_path_depth<F: Fn(&str) -> bool, G: Fn(&str) -> Result<String, VfsError>>(
    tree: &OverlayTree,
    path: &str,
    follow_final: bool,
    depth: u32,
    lower_is_symlink: &F,
    lower_readlink: &G,
) -> (r: Result<String, VfsError>)
    requires
        tree.wf(),
        forall|p: &str| lower_is_symlink.requires((p,)),
        forall|p: &str| lower_readlink.requires((p,)),
    ensures
        depth == 0 ==> (r matches Err(VfsError::SymlinkLoop(p)) && p@ == path@),
        depth > 0 && !starts_with_slash(path@) ==> (r matches Err(e) && not_absolute_error(path@, e)),
        r matches Ok(p) ==> normal_abs(p@),
        forall|lower: spec_fn(Seq<char>) -> Option<Result<Seq<char>, VfsError>>|
            #[trigger] answers_as(lower, *lower_is_symlink, *lower_readlink) ==> outcome_is(
                r,
                resolve_spec(tree@, path@, follow_final, depth as nat, lower),
            ),
    decreases depth, 1int,
{
    if depth == 0 {
        return Err(VfsError::SymlinkLoop(path.to_owned()));
    }
    let norm = match normalize(path) {
        Ok(p) => p,
        Err(e) => {
            return Err(e);
        },
    };
    let parts = path_components(norm.as_str());
    let ghost pv = strings_view(parts@);
    proof {
        lemma_segments_of_normalized(path@);
        lemma_normalized_is_clean(path@);
        lemma_segments_shape(normalized_absolute(path@));
        assert(pv == resolve_dots(segments_of(path@)));
        assert(strings_view(Seq::<String>::empty()) =~= seq![]);
    }
    let mut resolved: Vec<String> = Vec::new();
    let mut i: usize = 0;
    while i < parts.len()
        invariant
            tree.wf(),
            forall|p: &str| lower_is_symlink.requires((p,)),
            forall|p: &str| lower_readlink.requires((p,)),
            depth > 0,
            starts_with_slash(path@),
            pv == strings_view(parts@),
            pv == resolve_dots(segments_of(path@)),
            clean_segments(pv),
            slash_free(pv),
            i <= parts.len(),
            clean_segments(strings_view(resolved@)),
            slash_free(strings_view(resolved@)),
            forall|lower: spec_fn(Seq<char>) -> Option<Result<Seq<char>, VfsError>>|
                #[trigger] answers_as(lower, *lower_is_symlink, *lower_readlink) ==> resolve_spec(
                    tree@,
                    path@,
                    follow_final,
                    depth as nat,
                    lower,
                ) == walk_spec(tree@, pv, i as int, strings_view(resolved@), path@, follow_final, depth as nat, lower),
        decreases parts.len() - i,
    {
        let ghost rv = strings_view(resolved@);
        let mut cand: Vec<String> = Vec::new();
        append_strings(&mut cand, &resolved, 0);
        cand.push(parts[i].clone());
        let ghost cv = strings_view(cand@);
        proof {
            assert(rv.skip(0) =~= rv);
            assert(cv =~= rv.push(pv[i as int]));
            assert(clean_segments(cv));
            assert(slash_free(cv)) by {
                assert forall|a: int, b: int| 0 <= a < cv.len() && 0 <= b < cv[a].len() implies #[trigger] cv[a][b] != '/' by {
                    if a < rv.len() {
                        assert(cv[a] == rv[a]);
                    } else {
                        assert(cv[a] == pv[i as int]);
                    }
                }
            }
        }
        let keep = i + 1 == parts.len() && !follow_final;
        let step = match tree.descend_segments(&cand) {
            Descend::Found(UpperNode::Whiteout) => UpperStep::Hidden,
            Descend::Blocked => UpperStep::Hidden,
            Descend::NotDir => UpperStep::NotDir,
            Descend::Found(UpperNode::Symlink { target, .. }) => UpperStep::Link(target.clone()),
            Descend::Found(_) => UpperStep::Plain,
            Descend::Missing => UpperStep::AskLower,
        };
        let ghost dv = descend_in(tree@, cv);
        match step {
            UpperStep::Hidden => {
                let err = VfsError::NotFound(path.to_owned());
                proof {
                    assert forall|lower: spec_fn(Seq<char>) -> Option<Result<Seq<char>, VfsError>>|
                        #[trigger] answers_as(lower, *lower_is_symlink, *lower_readlink) implies outcome_is(
                        Err::<String, VfsError>(err),
                        resolve_spec(tree@, path@, follow_final, depth as nat, lower),
                    ) by {
                        assert(err matches VfsError::NotFound(q) && q@ == path@);
                        assert(dv matches DescendView::Found(NodeView::Whiteout) || dv is Blocked);
                    }
                }
                return Err(err);
            },
            UpperStep::NotDir => {
                let err = VfsError::NotADirectory(path.to_owned());
                proof {
                    assert forall|lower: spec_fn(Seq<char>) -> Option<Result<Seq<char>, VfsError>>|
                        #[trigger] answers_as(lower, *lower_is_symlink, *lower_readlink) implies outcome_is(
                        Err::<String, VfsError>(err),
                        resolve_spec(tree@, path@, follow_final, depth as nat, lower),
                    ) by {
                        assert(dv is NotDir);
                    }
                }
                return Err(err);
            },
            UpperStep::Plain => {
                proof {
                    assert forall|lower: spec_fn(Seq<char>) -> Option<Result<Seq<char>, VfsError>>|
                        #[trigger] answers_as(lower, *lower_is_symlink, *lower_readlink) implies resolve_spec(
                        tree@,
                        path@,
                        follow_final,
                        depth as nat,
                        lower,
                    ) == walk_spec(tree@, pv, i + 1, cv, path@, follow_final, depth as nat, lower) by {
                        assert(dv matches DescendView::Found(n) && !(n is Whiteout) && !(n is Symlink));
                    }
                }
                resolved = cand;
            },
            UpperStep::Link(target) => {
                if keep {
                    proof {
                        assert forall|lower: spec_fn(Seq<char>) -> Option<Result<Seq<char>, VfsError>>|
                            #[trigger] answers_as(lower, *lower_is_symlink, *lower_readlink) implies resolve_spec(
                            tree@,
                            path@,
                            follow_final,
                            depth as nat,
                            lower,
                        ) == walk_spec(tree@, pv, i + 1, cv, path@, follow_final, depth as nat, lower) by {
                            assert(dv matches DescendView::Found(NodeView::Symlink { .. }));
                        }
                    }
                    resolved = cand;
                } else {
                    proof {
                        assert(dv matches DescendView::Found(NodeView::Symlink { target: t, .. }) && t == target@);
                    }
                    let next = follow_link(tree, &resolved, target, depth, lower_is_symlink, lower_readlink);
                    match next {
                        Ok(segs) => {
                            proof {
                                assert forall|lower: spec_fn(Seq<char>) -> Option<Result<Seq<char>, VfsError>>|
                                    #[trigger] answers_as(lower, *lower_is_symlink, *lower_readlink) implies resolve_spec(
                                    tree@,
                                    path@,
                                    follow_final,
                                    depth as nat,
                                    lower,
                                ) == walk_spec(
                                    tree@,
                                    pv,
                                    i + 1,
                                    strings_view(segs@),
                                    path@,
                                    follow_final,
                                    depth as nat,
                                    lower,
                                ) by {
                                    assert(dv matches DescendView::Found(NodeView::Symlink { .. }));
                                }
                            }
                            resolved = segs;
                        },
                        Err(e) => {
                            proof {
                                assert forall|lower: spec_fn(Seq<char>) -> Option<Result<Seq<char>, VfsError>>|
                                    #[trigger] answers_as(lower, *lower_is_symlink, *lower_readlink) implies outcome_is(
                                    Err::<String, VfsError>(e),
                                    resolve_spec(tree@, path@, follow_final, depth as nat, lower),
                                ) by {
                                    assert(dv matches DescendView::Found(NodeView::Symlink { .. }));
                                }
                            }
                            return Err(e);
                        },
                    }
                }
            },
            UpperStep::AskLower => {
                let cand_path = absolute_path(&cand);
                let is_link = lower_is_symlink(cand_path.as_str());
                if !is_link || keep {
                    proof {
                        assert forall|lower: spec_fn(Seq<char>) -> Option<Result<Seq<char>, VfsError>>|
                            #[trigger] answers_as(lower, *lower_is_symlink, *lower_readlink) implies resolve_spec(
                            tree@,
                            path@,
                            follow_final,
                            depth as nat,
                            lower,
                        ) == walk_spec(tree@, pv, i + 1, cv, path@, follow_final, depth as nat, lower) by {
                            assert(dv is Missing);
                            assert(is_link == (lower(cand_path@) is Some));
                        }
                    }
                    resolved = cand;
                } else {
                    let read = lower_readlink(cand_path.as_str());
                    match read {
                        Ok(target) => {
                            let next = follow_link(tree, &resolved, target, depth, lower_is_symlink, lower_readlink);
                            match next {
                                Ok(segs) => {
                                    proof {
                                        assert forall|lower: spec_fn(Seq<char>) -> Option<Result<Seq<char>, VfsError>>|
                                            #[trigger] answers_as(lower, *lower_is_symlink, *lower_readlink) implies resolve_spec(
                                            tree@,
                                            path@,
                                            follow_final,
                                            depth as nat,
                                            lower,
                                        ) == walk_spec(
                                            tree@,
                                            pv,
                                            i + 1,
                                            strings_view(segs@),
                                            path@,
                                            follow_final,
                                            depth as nat,
                                            lower,
                                        ) by {
                                            assert(dv is Missing);
                                            assert(lower(cand_path@) is Some);
                                            assert(read_as(lower(cand_path@), read));
                                        }
                                    }
                                    resolved = segs;
                                },
                                Err(e) => {
                                    proof {
                                        assert forall|lower: spec_fn(Seq<char>) -> Option<Result<Seq<char>, VfsError>>|
                                            #[trigger] answers_as(lower, *lower_is_symlink, *lower_readlink) implies outcome_is(
                                            Err::<String, VfsError>(e),
                                            resolve_spec(tree@, path@, follow_final, depth as nat, lower),
                                        ) by {
                                            assert(dv is Missing);
                                            assert(lower(cand_path@) is Some);
                                            assert(read_as(lower(cand_path@), read));
                                        }
                                    }
                                    return Err(e);
                                },
                            }
                        },
                        Err(e) => {
                            proof {
                                assert forall|lower: spec_fn(Seq<char>) -> Option<Result<Seq<char>, VfsError>>|
                                    #[trigger] answers_as(lower, *lower_is_symlink, *lower_readlink) implies outcome_is(
                                    Err::<String, VfsError>(e),
                                    resolve_spec(tree@, path@, follow_final, depth as nat, lower),
                                ) by {
                                    assert(dv is Missing);
                                    assert(lower(cand_path@) is Some);
                                    assert(read_as(lower(cand_path@), read));
                                }
                            }
                            return Err(e);
                        },
                    }
                }
            },
        }
        i = i + 1;
    }
    proof {
        lemma_segments_of_absolute(strings_view(resolved@));
    }
    Ok(absolute_path(&resolved))
}

/// Follows a symlink to `target` met below `resolved`: resolves the link
/// target (relative ones appended to the resolved prefix) with one hop
/// less, and gives back the segments of the result.
fn follow_link<F: Fn(&str) -> bool, G: Fn(&str) -> Result<String, VfsError>>(
    tree: &OverlayTree,
    resolved: &Vec<String>,
    target: String,
    depth: u32,
    lower_is_symlink: &F,
    lower_readlink: &G,
) -> (r: Result<Vec<String>, VfsError>)
    requires
        tree.wf(),
        forall|p: &str| lower_is_symlink.requires((p,)),
        forall|p: &str| lower_readlink.requires((p,)),
        depth > 0,
    ensures
        r matches Ok(segs) ==> clean_segments(strings_view(segs@)) && slash_free(strings_view(segs@)),
        forall|lower: spec_fn(Seq<char>) -> Option<Result<Seq<char>, VfsError>>|
            #[trigger] answers_as(lower, *lower_is_symlink, *lower_readlink) ==> match resolve_spec(
                tree@,
                link_target(strings_view(resolved@), target@),
                true,
                (depth - 1) as nat,
                lower,
            ) {
                Ok(x) => r matches Ok(segs) && strings_view(segs@) == x,
                Err(f) => r matches Err(e) && outcome_is(Err::<String, VfsError>(e), Err(f)),
            },
    decreases depth, 0int,
{
    let abs = if vfs_path_is_absolute(target.as_str()) {
        target
    } else {
        vfs_append(absolute_path(resolved).as_str(), target.as_str())
    };
    proof {
        assert(abs@ == link_target(strings_view(resolved@), target@));
    }
    let sub = resolve_path_depth(tree, abs.as_str(), true, depth - 1, lower_is_symlink, lower_readlink);
    match sub {
        Ok(p) => {
            let segs = path_components(p.as_str());
            proof {
                assert forall|lower: spec_fn(Seq<char>) -> Option<Result<Seq<char>, VfsError>>|
                    #[trigger] answers_as(lower, *lower_is_symlink, *lower_readlink) implies match resolve_spec(
                    tree@,
                    link_target(strings_view(resolved@), target@),
                    true,
                    (depth - 1) as nat,
                    lower,
                ) {
                    Ok(x) => strings_view(segs@) == x,
                    Err(f) => false,
                } by {
                    let s = resolve_spec(tree@, abs@, true, (depth - 1) as nat, lower);
                    assert(outcome_is(sub, s));
                    if let Ok(x) = s {
                        lemma_segments_of_absolute(x);
                    }
                }
            }
            Ok(segs)
        },
        Err(e) => Err(e),
    }
}

} // verus!
