//! The overlay filesystem's logic over its upper tree: path helpers,
//! write-target resolution through upper symlinks, and the change set
//! (`diff`) and reconciliation (`sync`) of the upper layer against the
//! lower directory, whose probes the caller supplies.
use vstd::prelude::*;
use vstd::utf8::encode_utf8;

use crate::error::VfsError;
use crate::text::{chars_lt, chars_of, compare_chars, lemma_chars_lt_asymmetric, lemma_chars_lt_irreflexive,
    lemma_chars_lt_total, lemma_chars_lt_transitive, push_char};
use crate::vfs::overlay_tree::{
    lemma_children_view, children_view, descend_in, node_view, remove_at, strings_view, Descend, DescendView, NodeView,
    OverlayTree, UpperNode,
};
use crate::vfs::paths::{
    absolute_of, clean_segments, lemma_resolve_dots_clean, lemma_resolve_dots_of_clean, lemma_segments_of_absolute,
    lemma_segments_shape, normalized_absolute, resolve_dots, segments_of, slash_free, starts_with_slash,
    vfs_normalize_checked, vfs_path_is_absolute,
};
use crate::vfs::overlay_tree::listing_view;
use crate::vfs::paths::{is_dot, is_dot_dot, joined};
use crate::vfs::types::{DirEntry, NodeType};

verus! {

/// Symlink hops allowed while resolving one path.
pub const MAX_SYMLINK_DEPTH: u32 = 40;

// ── Path helpers ───────────────────────────────────────────────────

/// Lexical normalization of a segment list: empty and `.` segments
/// vanish, `..` removes the previous kept segment, and a `..` with nothing
/// to pop (or only kept `..` before it) is kept.
pub open spec fn lexical_dots(segs: Seq<Seq<char>>) -> Seq<Seq<char>>
    decreases segs.len(),
{
    if segs.len() == 0 {
        seq![]
    } else {
        let prev = lexical_dots(segs.drop_last());
        let s = segs.last();
        if s.len() == 0 || is_dot(s) {
            prev
        } else if is_dot_dot(s) {
            if prev.len() > 0 && !is_dot_dot(prev.last()) {
                prev.drop_last()
            } else {
                prev.push(s)
            }
        } else {
            prev.push(s)
        }
    }
}

/// Lexically normalizes path segments in place: drops `.` and empty
/// segments, resolves `..` by popping, and keeps a `..` with nothing to
/// pop.
pub fn normalize_segments(segs: &mut Vec<String>)
    ensures
        strings_view(final(segs)@) == lexical_dots(strings_view(old(segs)@)),
{
    let ghost input = strings_view(segs@);
    let mut out: Vec<String> = Vec::new();
    let mut k: usize = 0;
    assert(input.take(0) =~= Seq::<Seq<char>>::empty());
    assert(strings_view(out@) =~= Seq::<Seq<char>>::empty());
    while k < segs.len()
        invariant
            k <= segs@.len(),
            input == strings_view(segs@),
            strings_view(out@) == lexical_dots(input.take(k as int)),
        decreases segs.len() - k,
    {
        let c = chars_of(segs[k].as_str());
        let ghost prev = strings_view(out@);
        proof {
            assert(input.take(k + 1).drop_last() =~= input.take(k as int));
            assert(input.take(k + 1).last() == segs@[k as int]@);
        }
        if c.len() == 0 || (c.len() == 1 && c[0] == '.') {
            assert(c@.len() == 1 ==> c@ =~= seq!['.']);
        } else if c.len() == 2 && c[0] == '.' && c[1] == '.' {
            assert(c@ =~= seq!['.', '.']);
            let n = out.len();
            let mut pop = false;
            if n > 0 {
                let l = chars_of(out[n - 1].as_str());
                proof {
                    assert(prev.last() == out@[n - 1]@);
                }
                pop = !(l.len() == 2 && l[0] == '.' && l[1] == '.');
                proof {
                    if l@.len() == 2 && l@[0] == '.' && l@[1] == '.' {
                        assert(l@ =~= seq!['.', '.']);
                    }
                }
            }
            if pop {
                out.pop();
                assert(strings_view(out@) =~= prev.drop_last());
            } else {
                out.push(segs[k].clone());
                assert(strings_view(out@) =~= prev.push(segs@[k as int]@));
            }
        } else {
            proof {
                assert(c@ != seq!['.']) by {
                    if c@.len() == 1 {
                        assert(c@[0] != '.');
                    }
                }
                assert(c@ != seq!['.', '.']) by {
                    if c@.len() == 2 {
                        assert(c@[0] != '.' || c@[1] != '.');
                    }
                }
            }
            out.push(segs[k].clone());
            assert(strings_view(out@) =~= prev.push(segs@[k as int]@));
        }
        k = k + 1;
    }
    assert(input.take(segs@.len() as int) =~= input);
    *segs = out;
}

/// Normalizes the segments of a write target in place: empty and `.`
/// segments go, `..` removes the previous segment, and at the top it is
/// dropped (the root's parent is the root), so that no literal `..` node
/// ever enters the upper tree.
fn pop_dot_segments(segs: &mut Vec<String>)
    ensures
        strings_view(final(segs)@) == resolve_dots(strings_view(old(segs)@)),
{
    let ghost input = strings_view(segs@);
    let mut out: Vec<String> = Vec::new();
    let mut k: usize = 0;
    assert(input.take(0) =~= Seq::<Seq<char>>::empty());
    assert(strings_view(out@) =~= Seq::<Seq<char>>::empty());
    while k < segs.len()
        invariant
            k <= segs@.len(),
            input == strings_view(segs@),
            strings_view(out@) == resolve_dots(input.take(k as int)),
        decreases segs.len() - k,
    {
        let c = chars_of(segs[k].as_str());
        let ghost prev = strings_view(out@);
        proof {
            assert(input.take(k + 1).drop_last() =~= input.take(k as int));
            assert(input.take(k + 1).last() == segs@[k as int]@);
        }
        if c.len() == 0 || (c.len() == 1 && c[0] == '.') {
            assert(c@.len() == 1 ==> c@ =~= seq!['.']);
        } else if c.len() == 2 && c[0] == '.' && c[1] == '.' {
            assert(c@ =~= seq!['.', '.']);
            if out.len() > 0 {
                out.pop();
                assert(strings_view(out@) =~= prev.drop_last());
            }
        } else {
            proof {
                assert(c@ != seq!['.']) by {
                    if c@.len() == 1 {
                        assert(c@[0] != '.');
                    }
                }
                assert(c@ != seq!['.', '.']) by {
                    if c@.len() == 2 {
                        assert(c@[0] != '.' || c@[1] != '.');
                    }
                }
            }
            out.push(segs[k].clone());
            assert(strings_view(out@) =~= prev.push(segs@[k as int]@));
        }
        k = k + 1;
    }
    assert(input.take(segs@.len() as int) =~= input);
    *segs = out;
}

/// Whether a node holds content: a file or symlink, or a directory with
/// content somewhere below it (whiteouts do not count).
pub open spec fn node_has_content(n: NodeView) -> bool
    decreases n, 1nat,
{
    match n {
        NodeView::Whiteout => false,
        NodeView::Dir { children, .. } => any_content(children),
        _ => true,
    }
}

/// Whether any node of a child list, or below it, is content.
pub open spec fn any_content(cs: Seq<(Seq<char>, NodeView)>) -> bool
    decreases cs, 0nat,
{
    if cs.len() == 0 {
        false
    } else {
        node_has_content(cs[0].1) || any_content(cs.drop_first())
    }
}

fn has_content_from(children: &Vec<(String, UpperNode)>, i: usize) -> (r: bool)
    requires
        i <= children@.len(),
    ensures
        r == any_content(children_view(children@).skip(i as int)),
    decreases children@, children@.len() - i,
{
    let ghost rest = children_view(children@).skip(i as int);
    proof {
        lemma_children_view(children@);
    }
    if i == children.len() {
        assert(rest.len() == 0);
        return false;
    }
    proof {
        assert(rest[0] == (children@[i as int].0@, node_view(children@[i as int].1)));
        assert(rest.drop_first() =~= children_view(children@).skip(i + 1));
    }
    let here = match &children[i].1 {
        UpperNode::Whiteout => false,
        UpperNode::Dir { children: sub, .. } => {
            proof {
                assert(children_view(sub@).skip(0) =~= children_view(sub@));
                assert(decreases_to!(children@ => children@[i as int]));
            }
            has_content_from(sub, 0)
        },
        _ => true,
    };
    proof {
        assert(here == node_has_content(rest[0].1));
        assert(any_content(rest) == (node_has_content(rest[0].1) || any_content(rest.drop_first())));
    }
    if here {
        return true;
    }
    has_content_from(children, i + 1)
}

/// True when any node below `children` is a content node.
pub fn subtree_has_content(children: &Vec<(String, UpperNode)>) -> (r: bool)
    ensures
        r == any_content(children_view(children@)),
{
    assert(children_view(children@).skip(0) =~= children_view(children@));
    has_content_from(children, 0)
}

/// The refusal of a path that is not absolute: `InvalidPath` with
/// "empty path" or "path must be absolute: " and the path.
pub open spec fn not_absolute_error(path: Seq<char>, e: VfsError) -> bool {
    e matches VfsError::InvalidPath(m) && (path.len() == 0 ==> m@ == "empty path"@)
        && (path.len() > 0 ==> m@ == "path must be absolute: "@ + path)
}

/// Normalizes an absolute path: resolves `.` and `..`.
pub fn normalize(path: &str) -> (r: Result<String, VfsError>)
    ensures
        match r {
            Ok(p) => starts_with_slash(path@) && p@ == normalized_absolute(path@),
            Err(e) => !starts_with_slash(path@) && not_absolute_error(path@, e),
        },
{
    vfs_normalize_checked(path)
}

/// The component names of a path (its non-empty `/`-separated pieces).
pub fn path_components(path: &str) -> (v: Vec<String>)
    ensures
        strings_view(v@) == segments_of(path@),
{
    crate::vfs::overlay_tree::segments(path)
}

// ── Write targets ──────────────────────────────────────────────────

/// Where a write to `segs` lands, following upper symlinks from segment
/// `i` on: a symlink met on the way (the last segment only when
/// `follow_final`) is spliced in (relative targets against the segments
/// before it), the result is lexically normalized and scanned again from
/// the start. `None` once more than `MAX_SYMLINK_DEPTH` links were
/// followed.
pub open spec fn write_target_from(
    cs: Seq<(Seq<char>, NodeView)>,
    segs: Seq<Seq<char>>,
    i: int,
    hops: int,
    follow_final: bool,
) -> Option<Seq<Seq<char>>>
    decreases 40 - hops, segs.len() - i,
{
    if i < 0 || i >= segs.len() {
        Some(segs.take(i))
    } else {
        match descend_in(cs, segs.take(i + 1)) {
            DescendView::Found(NodeView::Symlink { target, .. }) if follow_final || i + 1 < segs.len() => {
                if hops + 1 > 40 {
                    None
                } else {
                    let base = if starts_with_slash(target) {
                        Seq::<Seq<char>>::empty()
                    } else {
                        segs.take(i)
                    };
                    write_target_from(cs, resolve_dots(base + segments_of(target) + segs.skip(i + 1)), 0, hops + 1, follow_final)
                }
            },
            _ => write_target_from(cs, segs, i + 1, hops, follow_final),
        }
    }
}

/// Appends `src[from..]` to `dst`.
pub(crate) fn append_strings(dst: &mut Vec<String>, src: &Vec<String>, from: usize)
    requires
        from <= src@.len(),
    ensures
        strings_view(final(dst)@) == strings_view(old(dst)@) + strings_view(src@).skip(from as int),
{
    let mut k = from;
    while k < src.len()
        invariant
            from <= k <= src@.len(),
            strings_view(dst@) == strings_view(old(dst)@) + strings_view(src@).subrange(from as int, k as int),
        decreases src.len() - k,
    {
        let ghost before = strings_view(dst@);
        dst.push(src[k].clone());
        assert(strings_view(dst@) =~= before.push(src@[k as int]@));
        k = k + 1;
        assert(strings_view(dst@) =~= strings_view(old(dst)@) + strings_view(src@).subrange(from as int, k as int));
    }
    assert(strings_view(src@).subrange(from as int, src@.len() as int) =~= strings_view(src@).skip(from as int));
}

/// `/` followed by the segments joined with `/`.
pub fn absolute_path(parts: &Vec<String>) -> (s: String)
    ensures
        s@ == absolute_of(strings_view(parts@)),
{
    let mut out = String::new();
    push_char(&mut out, '/');
    let mut k: usize = 0;
    while k < parts.len()
        invariant
            k <= parts@.len(),
            out@ == absolute_of(strings_view(parts@).take(k as int)),
        decreases parts.len() - k,
    {
        let ghost t = strings_view(parts@).take(k + 1);
        proof {
            assert(t.drop_last() =~= strings_view(parts@).take(k as int));
            assert(t.last() == parts@[k as int]@);
        }
        if k > 0 {
            push_char(&mut out, '/');
        }
        crate::text::push_str(&mut out, parts[k].as_str());
        proof {
            if k == 0 {
                assert(crate::vfs::paths::join_slash(t) == t[0]);
            }
            assert(out@ =~= absolute_of(t));
        }
        k = k + 1;
    }
    assert(strings_view(parts@).take(parts@.len() as int) =~= strings_view(parts@));
    out
}

/// Resolves a write target through upper-layer symlinks, POSIX style:
/// symlinks in every existing component are followed (the final one only
/// when `follow_final`), chains are scanned again, and `..` in relative
/// targets is resolved lexically, so the result is a normalized absolute
/// path. Whiteouted or missing components pass through literally. More
/// than `MAX_SYMLINK_DEPTH` links is `SymlinkLoop`.
pub fn resolve_write_target(tree: &OverlayTree, path: &str, follow_final: bool) -> (r: Result<String, VfsError>)
    requires
        tree.wf(),
    ensures
        !starts_with_slash(path@) ==> (r matches Err(e) && not_absolute_error(path@, e)),
        starts_with_slash(path@) ==> match write_target_from(tree@, resolve_dots(segments_of(path@)), 0, 0, follow_final) {
            Some(res) => r matches Ok(p) && p@ == absolute_of(res),
            None => r matches Err(VfsError::SymlinkLoop(p)) && p@ == path@,
        },
{
    let norm = match normalize(path) {
        Ok(p) => p,
        Err(e) => {
            return Err(e);
        },
    };
    proof {
        crate::vfs::paths::lemma_segments_of_normalized(path@);
    }
    let mut segs = path_components(norm.as_str());
    let mut resolved: Vec<String> = Vec::new();
    let mut hops: u32 = 0;
    let mut i: usize = 0;
    let ghost start = strings_view(segs@);
    assert(strings_view(resolved@) =~= strings_view(segs@).take(0));
    while i < segs.len()
        invariant
            tree.wf(),
            starts_with_slash(path@),
            start == resolve_dots(segments_of(path@)),
            i <= segs@.len(),
            hops <= 40,
            strings_view(resolved@) == strings_view(segs@).take(i as int),
            write_target_from(tree@, start, 0, 0, follow_final) == write_target_from(tree@, strings_view(segs@), i as int, hops as int, follow_final),
        decreases 40 - hops, segs@.len() - i,
    {
        let ghost sv = strings_view(segs@);
        let mut cand: Vec<String> = Vec::new();
        append_strings(&mut cand, &resolved, 0);
        cand.push(segs[i].clone());
        proof {
            assert(strings_view(resolved@).skip(0) =~= strings_view(resolved@));
            assert(strings_view(cand@) =~= sv.take(i + 1));
        }
        let target: Option<String> = match tree.descend_segments(&cand) {
            Descend::Found(UpperNode::Symlink { target, .. }) => Some(target.clone()),
            _ => None,
        };
        let follow = match &target {
            Some(_) => follow_final || i + 1 < segs.len(),
            None => false,
        };
        if follow {
            let t = match target {
                Some(t) => t,
                None => String::new(),
            };
            if hops + 1 > MAX_SYMLINK_DEPTH {
                return Err(VfsError::SymlinkLoop(path.to_owned()));
            }
            hops = hops + 1;
            let mut new_segs: Vec<String> = Vec::new();
            let ghost base = if starts_with_slash(t@) { Seq::<Seq<char>>::empty() } else { sv.take(i as int) };
            if !vfs_path_is_absolute(t.as_str()) {
                append_strings(&mut new_segs, &resolved, 0);
                assert(strings_view(resolved@).skip(0) =~= strings_view(resolved@));
            }
            assert(strings_view(new_segs@) =~= base);
            let comps = path_components(t.as_str());
            append_strings(&mut new_segs, &comps, 0);
            assert(strings_view(comps@).skip(0) =~= strings_view(comps@));
            append_strings(&mut new_segs, &segs, i + 1);
            pop_dot_segments(&mut new_segs);
            segs = new_segs;
            resolved = Vec::new();
            i = 0;
            assert(strings_view(resolved@) =~= strings_view(segs@).take(0));
        } else {
            resolved.push(segs[i].clone());
            assert(strings_view(resolved@) =~= sv.take(i + 1));
            i = i + 1;
        }
    }
    proof {
        assert(strings_view(segs@).take(i as int) =~= strings_view(resolved@));
    }
    Ok(absolute_path(&resolved))
}

// ── Path order ─────────────────────────────────────────────────────

/// Lexicographic order of segment lists, segments compared by code point
/// (a proper prefix comes first).
pub open spec fn seg_lt(x: Seq<Seq<char>>, y: Seq<Seq<char>>) -> bool
    decreases x.len(),
{
    if x.len() == 0 {
        y.len() > 0
    } else if y.len() == 0 {
        false
    } else if chars_lt(x[0], y[0]) {
        true
    } else if x[0] == y[0] {
        seg_lt(x.drop_first(), y.drop_first())
    } else {
        false
    }
}

/// Path order: by components.
pub open spec fn path_lt(a: Seq<char>, b: Seq<char>) -> bool {
    seg_lt(segments_of(a), segments_of(b))
}

/// No path is followed by one that orders before it.
pub open spec fn paths_sorted(ps: Seq<Seq<char>>) -> bool {
    forall|i: int, j: int| 0 <= i < j < ps.len() ==> !path_lt(#[trigger] ps[j], #[trigger] ps[i])
}

pub proof fn lemma_seg_lt_irreflexive(x: Seq<Seq<char>>)
    ensures
        !seg_lt(x, x),
    decreases x.len(),
{
    if x.len() > 0 {
        lemma_chars_lt_irreflexive(x[0]);
        lemma_seg_lt_irreflexive(x.drop_first());
    }
}

pub proof fn lemma_seg_lt_transitive(x: Seq<Seq<char>>, y: Seq<Seq<char>>, z: Seq<Seq<char>>)
    requires
        seg_lt(x, y),
        seg_lt(y, z),
    ensures
        seg_lt(x, z),
    decreases x.len(),
{
    if x.len() > 0 && y.len() > 0 && z.len() > 0 {
        if chars_lt(x[0], y[0]) {
            if chars_lt(y[0], z[0]) {
                lemma_chars_lt_transitive(x[0], y[0], z[0]);
            }
        } else {
            if chars_lt(y[0], z[0]) {
            } else {
                lemma_seg_lt_transitive(x.drop_first(), y.drop_first(), z.drop_first());
            }
        }
    }
}

pub proof fn lemma_seg_lt_total(x: Seq<Seq<char>>, y: Seq<Seq<char>>)
    ensures
        x == y || seg_lt(x, y) || seg_lt(y, x),
    decreases x.len(),
{
    if x.len() > 0 && y.len() > 0 {
        lemma_chars_lt_total(x[0], y[0]);
        if x[0] == y[0] {
            lemma_seg_lt_total(x.drop_first(), y.drop_first());
            if x.drop_first() == y.drop_first() {
                assert(x =~= seq![x[0]] + x.drop_first());
                assert(y =~= seq![y[0]] + y.drop_first());
            }
        }
    } else if x.len() == 0 && y.len() == 0 {
        assert(x =~= y);
    }
}

pub proof fn lemma_seg_lt_asymmetric(x: Seq<Seq<char>>, y: Seq<Seq<char>>)
    requires
        seg_lt(x, y),
    ensures
        !seg_lt(y, x),
{
    if seg_lt(y, x) {
        lemma_seg_lt_transitive(x, y, x);
        lemma_seg_lt_irreflexive(x);
    }
}

/// Inserting `x` at the first index whose path orders after it keeps a
/// list sorted.
proof fn lemma_insert_sorted(ps: Seq<Seq<char>>, k: int, x: Seq<char>)
    requires
        paths_sorted(ps),
        0 <= k <= ps.len(),
        forall|i: int| 0 <= i < k ==> !path_lt(x, #[trigger] ps[i]),
        k < ps.len() ==> path_lt(x, ps[k]),
    ensures
        paths_sorted(ps.insert(k, x)),
{
    let r = ps.insert(k, x);
    assert forall|i: int, j: int| 0 <= i < j < r.len() implies !path_lt(#[trigger] r[j], #[trigger] r[i]) by {
        if j < k {
            assert(r[i] == ps[i] && r[j] == ps[j]);
        } else if j == k {
            assert(r[i] == ps[i]);
            if path_lt(x, ps[i]) {
            }
            // r[j] == x, and x does not order before ps[i]
            lemma_seg_lt_total(segments_of(x), segments_of(ps[i]));
            if path_lt(x, ps[i]) {
                assert(false);
            }
        } else if i == k {
            assert(r[j] == ps[j - 1]);
            // x orders before ps[k] <= ps[j - 1]
            assert(path_lt(x, ps[k]));
            if j - 1 > k {
                assert(!path_lt(ps[j - 1], ps[k]));
                lemma_seg_lt_total(segments_of(ps[k]), segments_of(ps[j - 1]));
                if seg_lt(segments_of(ps[k]), segments_of(ps[j - 1])) {
                    lemma_seg_lt_transitive(segments_of(x), segments_of(ps[k]), segments_of(ps[j - 1]));
                }
            }
            lemma_seg_lt_asymmetric(segments_of(x), segments_of(ps[j - 1]));
        } else if i < k {
            assert(r[i] == ps[i] && r[j] == ps[j - 1]);
        } else {
            assert(r[i] == ps[i - 1] && r[j] == ps[j - 1]);
        }
    }
}

fn segments_less(a: &Vec<String>, b: &Vec<String>) -> (r: bool)
    ensures
        r == seg_lt(strings_view(a@), strings_view(b@)),
{
    let ghost x = strings_view(a@);
    let ghost y = strings_view(b@);
    let mut k: usize = 0;
    assert(x.skip(0) =~= x && y.skip(0) =~= y);
    while k < a.len() && k < b.len()
        invariant
            k <= a@.len(),
            k <= b@.len(),
            x == strings_view(a@),
            y == strings_view(b@),
            seg_lt(x, y) == seg_lt(x.skip(k as int), y.skip(k as int)),
        decreases a.len() - k,
    {
        let ca = chars_of(a[k].as_str());
        let cb = chars_of(b[k].as_str());
        let c = compare_chars(&ca, &cb);
        assert(x.skip(k as int)[0] == x[k as int] && y.skip(k as int)[0] == y[k as int]);
        if c < 0 {
            return true;
        }
        if c > 0 {
            proof {
                lemma_chars_lt_asymmetric(cb@, ca@);
                lemma_chars_lt_irreflexive(ca@);
            }
            return false;
        }
        assert(x.skip(k as int).drop_first() =~= x.skip(k + 1));
        assert(y.skip(k as int).drop_first() =~= y.skip(k + 1));
        k = k + 1;
    }
    k < b.len()
}

/// Whether path `a` orders before path `b` (by components).
pub fn path_less(a: &str, b: &str) -> (r: bool)
    ensures
        r == path_lt(a@, b@),
{
    let sa = path_components(a);
    let sb = path_components(b);
    segments_less(&sa, &sb)
}

// ── The change set ─────────────────────────────────────────────────

/// A single write captured in the overlay's in-memory upper layer.
#[derive(Debug, Clone, PartialEq, Eq)]
pub struct OverlayWrite {
    /// VFS path of the written entry.
    pub path: String,
    /// Kind of entry written.
    pub node_type: NodeType,
    /// File content; the symlink target (as UTF-8 bytes) for symlinks; empty
    /// for directories.
    pub content: Vec<u8>,
    /// Unix-style permission mode to apply when materializing on the host.
    pub mode: u32,
}

/// All changes recorded in an overlay relative to its lower directory:
/// the upper-layer write set plus the deletions (whiteouts) of lower paths.
#[derive(Debug, Clone, PartialEq, Eq)]
pub struct OverlayDiff {
    /// Every entry created or modified in the upper layer, sorted by path.
    pub writes: Vec<OverlayWrite>,
    /// Lower-layer paths deleted (top-most whiteouts only), sorted by path.
    pub deletions: Vec<String>,
}

/// A write as values: path, kind, content and mode.
pub open spec fn write_view(w: OverlayWrite) -> (Seq<char>, NodeType, Seq<u8>, u32) {
    (w.path@, w.node_type, w.content@, w.mode)
}

pub open spec fn writes_view(ws: Seq<OverlayWrite>) -> Seq<(Seq<char>, NodeType, Seq<u8>, u32)> {
    ws.map_values(|w: OverlayWrite| write_view(w))
}

pub open spec fn write_paths(ws: Seq<OverlayWrite>) -> Seq<Seq<char>> {
    ws.map_values(|w: OverlayWrite| w.path@)
}

/// The write an upper node stands for: a file with its content and mode,
/// a symlink with its target's bytes and mode `0o777`, a directory with
/// mode and no content unless its subtree is all whiteouts (scaffolding
/// of `put_whiteout`); nothing for a whiteout.
pub open spec fn write_of(e: (Seq<char>, NodeView)) -> Seq<(Seq<char>, NodeType, Seq<u8>, u32)> {
    match e.1 {
        NodeView::File { content, mode, .. } => seq![(e.0, NodeType::File, content, mode)],
        NodeView::Dir { children, mode, .. } => if children.len() > 0 && !any_content(children) {
            seq![]
        } else {
            seq![(e.0, NodeType::Directory, Seq::<u8>::empty(), mode)]
        },
        NodeView::Symlink { target, .. } => seq![(e.0, NodeType::Symlink, encode_utf8(target), 0o777u32)],
        NodeView::Whiteout => seq![],
    }
}

/// The writes of a walk, in walk order.
pub open spec fn diff_writes(es: Seq<(Seq<char>, NodeView)>) -> Seq<(Seq<char>, NodeType, Seq<u8>, u32)>
    decreases es.len(),
{
    if es.len() == 0 {
        seq![]
    } else {
        diff_writes(es.drop_last()) + write_of(es.last())
    }
}

/// The whiteout paths of a walk, in walk order.
pub open spec fn whiteout_paths(es: Seq<(Seq<char>, NodeView)>) -> Seq<Seq<char>>
    decreases es.len(),
{
    if es.len() == 0 {
        seq![]
    } else {
        whiteout_paths(es.drop_last()) + if es.last().1 is Whiteout {
            seq![es.last().0]
        } else {
            seq![]
        }
    }
}

/// The paths whose answer is `true`.
pub open spec fn select(ps: Seq<Seq<char>>, ans: Seq<bool>) -> Seq<Seq<char>>
    decreases ps.len(),
{
    if ps.len() == 0 {
        seq![]
    } else {
        select(ps.drop_last(), ans.drop_last()) + if ans.last() {
            seq![ps.last()]
        } else {
            seq![]
        }
    }
}

/// The probe answered `b` for a path spelled `path`.
pub open spec fn probed<F: Fn(&str) -> bool>(f: F, path: Seq<char>, b: bool) -> bool {
    exists|p: &str| p@ == path && #[trigger] call_ensures(f, (p,), b)
}

fn insert_write(out: &mut Vec<OverlayWrite>, w: OverlayWrite)
    requires
        paths_sorted(write_paths(old(out)@)),
    ensures
        paths_sorted(write_paths(final(out)@)),
        writes_view(final(out)@).to_multiset() == writes_view(old(out)@).to_multiset().insert(write_view(w)),
{
    let mut k: usize = 0;
    while k < out.len() && !path_less(w.path.as_str(), out[k].path.as_str())
        invariant
            k <= out@.len(),
            forall|i: int| 0 <= i < k ==> !path_lt(w.path@, #[trigger] write_paths(out@)[i]),
        decreases out.len() - k,
    {
        k = k + 1;
    }
    let ghost ps = write_paths(out@);
    let ghost vs = writes_view(out@);
    proof {
        lemma_insert_sorted(ps, k as int, w.path@);
    }
    let ghost wv = write_view(w);
    out.insert(k, w);
    proof {
        assert(write_paths(out@) =~= ps.insert(k as int, wv.0));
        assert(writes_view(out@) =~= vs.insert(k as int, wv));
        vstd::seq_lib::to_multiset_insert(vs, k as int, wv);
    }
}

fn insert_path(out: &mut Vec<String>, p: String)
    requires
        paths_sorted(strings_view(old(out)@)),
    ensures
        paths_sorted(strings_view(final(out)@)),
        strings_view(final(out)@).to_multiset() == strings_view(old(out)@).to_multiset().insert(p@),
{
    let mut k: usize = 0;
    while k < out.len() && !path_less(p.as_str(), out[k].as_str())
        invariant
            k <= out@.len(),
            forall|i: int| 0 <= i < k ==> !path_lt(p@, #[trigger] strings_view(out@)[i]),
        decreases out.len() - k,
    {
        k = k + 1;
    }
    let ghost ps = strings_view(out@);
    proof {
        lemma_insert_sorted(ps, k as int, p@);
    }
    let ghost pv = p@;
    out.insert(k, p);
    proof {
        assert(strings_view(out@) =~= ps.insert(k as int, pv));
        vstd::seq_lib::to_multiset_insert(ps, k as int, pv);
    }
}

fn bytes_of(s: &str) -> (v: Vec<u8>)
    ensures
        v@ == encode_utf8(s@),
{
    let b = s.as_bytes();
    let mut v: Vec<u8> = Vec::new();
    let mut k: usize = 0;
    while k < b.len()
        invariant
            k <= b@.len(),
            v@ == b@.take(k as int),
        decreases b.len() - k,
    {
        v.push(b[k]);
        k = k + 1;
        assert(v@ =~= b@.take(k as int));
    }
    assert(b@.take(b@.len() as int) =~= b@);
    v
}

/// Every change recorded in the upper layer: the writes (files,
/// symlinks, and directories that are not mere whiteout scaffolding) and
/// the deletions, i.e. the whiteouts whose lower path still exists (as
/// `lower_exists` tells). Both lists are sorted by path.
pub fn diff<F: Fn(&str) -> bool>(tree: &OverlayTree, lower_exists: &F) -> (d: OverlayDiff)
    requires
        forall|p: &str| lower_exists.requires((p,)),
    ensures
        ({
            let es = crate::vfs::overlay_tree::preorder(tree@, "/"@);
            let wos = whiteout_paths(es);
            &&& writes_view(d.writes@).to_multiset() == diff_writes(es).to_multiset()
            &&& paths_sorted(write_paths(d.writes@))
            &&& paths_sorted(strings_view(d.deletions@))
            &&& exists|ans: Seq<bool>| {
                &&& ans.len() == wos.len()
                &&& (forall|k: int| 0 <= k < wos.len() ==> probed(*lower_exists, wos[k], #[trigger] ans[k]))
                &&& strings_view(d.deletions@).to_multiset() == select(wos, ans).to_multiset()
            }
        }),
{
    let entries = tree.walk();
    let ghost es = crate::vfs::overlay_tree::walked_view(entries@);
    let mut writes: Vec<OverlayWrite> = Vec::new();
    let mut deletions: Vec<String> = Vec::new();
    let ghost mut ans = Seq::<bool>::empty();
    let mut k: usize = 0;
    proof {
        assert(es.take(0) =~= Seq::<(Seq<char>, NodeView)>::empty());
        assert(writes_view(writes@) =~= Seq::<(Seq<char>, NodeType, Seq<u8>, u32)>::empty());
        assert(strings_view(deletions@) =~= Seq::<Seq<char>>::empty());
        assert(write_paths(writes@) =~= Seq::<Seq<char>>::empty());
    }
    while k < entries.len()
        invariant
            k <= entries@.len(),
            es == crate::vfs::overlay_tree::walked_view(entries@),
            forall|p: &str| lower_exists.requires((p,)),
            writes_view(writes@).to_multiset() == diff_writes(es.take(k as int)).to_multiset(),
            paths_sorted(write_paths(writes@)),
            paths_sorted(strings_view(deletions@)),
            ans.len() == whiteout_paths(es.take(k as int)).len(),
            forall|x: int| 0 <= x < ans.len() ==> probed(*lower_exists, whiteout_paths(es.take(k as int))[x], #[trigger] ans[x]),
            strings_view(deletions@).to_multiset() == select(whiteout_paths(es.take(k as int)), ans).to_multiset(),
        decreases entries.len() - k,
    {
        let ghost t = es.take(k + 1);
        let ghost e = es[k as int];
        proof {
            assert(t.drop_last() =~= es.take(k as int));
            assert(t.last() == e);
            assert(e == (entries@[k as int].0@, node_view(*entries@[k as int].1)));
        }
        let path = &entries[k].0;
        let node = entries[k].1;
        let ghost w0 = writes_view(writes@);
        match node {
            UpperNode::File { content, mode, .. } => {
                let w = OverlayWrite { path: path.clone(), node_type: NodeType::File, content: content.clone(), mode: *mode };
                insert_write(&mut writes, w);
                proof {
                    vstd::seq_lib::to_multiset_build(diff_writes(es.take(k as int)), write_view(w));
                    assert(diff_writes(t) =~= diff_writes(es.take(k as int)).push(write_view(w)));
                    assert(whiteout_paths(t) =~= whiteout_paths(es.take(k as int)));
                }
            },
            UpperNode::Dir { children, mode, .. } => {
                let scaffold = children.len() > 0 && !subtree_has_content(children);
                proof {
                    lemma_children_view(children@);
                }
                if !scaffold {
                    let w = OverlayWrite { path: path.clone(), node_type: NodeType::Directory, content: Vec::new(), mode: *mode };
                    insert_write(&mut writes, w);
                    proof {
                        vstd::seq_lib::to_multiset_build(diff_writes(es.take(k as int)), write_view(w));
                        assert(diff_writes(t) =~= diff_writes(es.take(k as int)).push(write_view(w)));
                    }
                } else {
                    assert(diff_writes(t) =~= diff_writes(es.take(k as int)));
                }
                assert(whiteout_paths(t) =~= whiteout_paths(es.take(k as int)));
            },
            UpperNode::Symlink { target, .. } => {
                let w = OverlayWrite { path: path.clone(), node_type: NodeType::Symlink, content: bytes_of(target.as_str()), mode: 0o777 };
                insert_write(&mut writes, w);
                proof {
                    vstd::seq_lib::to_multiset_build(diff_writes(es.take(k as int)), write_view(w));
                    assert(diff_writes(t) =~= diff_writes(es.take(k as int)).push(write_view(w)));
                    assert(whiteout_paths(t) =~= whiteout_paths(es.take(k as int)));
                }
            },
            UpperNode::Whiteout => {
                let present = lower_exists(path.as_str());
                let ghost wos0 = whiteout_paths(es.take(k as int));
                let ghost del0 = strings_view(deletions@);
                let ghost ans0 = ans;
                if present {
                    insert_path(&mut deletions, path.clone());
                }
                proof {
                    assert(probed(*lower_exists, path@, present));
                    ans = ans0.push(present);
                    assert(whiteout_paths(t) =~= wos0.push(path@));
                    assert(diff_writes(t) =~= diff_writes(es.take(k as int)));
                    assert(ans.drop_last() =~= ans0);
                    assert(whiteout_paths(t).drop_last() =~= wos0);
                    if present {
                        vstd::seq_lib::to_multiset_build(select(wos0, ans0), path@);
                        assert(select(whiteout_paths(t), ans) =~= select(wos0, ans0).push(path@));
                    } else {
                        assert(select(whiteout_paths(t), ans) =~= select(wos0, ans0));
                    }
                    assert forall|x: int| 0 <= x < ans.len() implies probed(*lower_exists, whiteout_paths(t)[x], #[trigger] ans[x]) by {
                        if x < ans0.len() {
                            assert(whiteout_paths(t)[x] == wos0[x]);
                            assert(ans[x] == ans0[x]);
                        }
                    }
                }
            },
        }
        k = k + 1;
    }
    proof {
        assert(es.take(entries@.len() as int) =~= es);
    }
    OverlayDiff { writes, deletions }
}

// ── Reconciliation ─────────────────────────────────────────────────

/// A directory with at least one child sits at `p`.
pub open spec fn dir_has_children(cs: Seq<(Seq<char>, NodeView)>, p: Seq<char>) -> bool {
    descend_in(cs, segments_of(p)) matches DescendView::Found(NodeView::Dir { children, .. }) && children.len() > 0
}

/// The tree after reconciling `es` in order: each entry is (path, is a
/// directory, matches the lower layer); a matching entry is removed, a
/// directory only once it has no children left.
pub open spec fn sync_fold(cs: Seq<(Seq<char>, NodeView)>, es: Seq<(Seq<char>, bool, bool)>) -> Seq<(Seq<char>, NodeView)>
    decreases es.len(),
{
    if es.len() == 0 {
        cs
    } else {
        let c = sync_fold(cs, es.drop_last());
        let (p, is_dir, matches) = es.last();
        if !matches || (is_dir && dir_has_children(c, p)) {
            c
        } else {
            remove_at(c, segments_of(p))
        }
    }
}

pub open spec fn sync_entries_view(v: Seq<(String, bool, bool)>) -> Seq<(Seq<char>, bool, bool)> {
    v.map_values(|e: (String, bool, bool)| (e.0@, e.1, e.2))
}

/// Drops every upper entry that now matches the lower layer. `entries`
/// lists, in post-order, each upper path with whether it is a directory
/// and whether it matches the lower layer (probed by the caller); a
/// directory goes only once its children have gone.
pub fn sync_apply(tree: &mut OverlayTree, entries: &Vec<(String, bool, bool)>)
    requires
        old(tree).wf(),
    ensures
        final(tree).wf(),
        final(tree)@ == sync_fold(old(tree)@, sync_entries_view(entries@)),
{
    let ghost ev = sync_entries_view(entries@);
    let mut k: usize = 0;
    assert(ev.take(0) =~= Seq::<(Seq<char>, bool, bool)>::empty());
    while k < entries.len()
        invariant
            k <= entries@.len(),
            ev == sync_entries_view(entries@),
            tree.wf(),
            tree@ == sync_fold(old(tree)@, ev.take(k as int)),
        decreases entries.len() - k,
    {
        proof {
            assert(ev.take(k + 1).drop_last() =~= ev.take(k as int));
            assert(ev.take(k + 1).last() == (entries@[k as int].0@, entries@[k as int].1, entries@[k as int].2));
        }
        let path = entries[k].0.as_str();
        let is_dir = entries[k].1;
        let matches = entries[k].2;
        if matches {
            let keep = is_dir && match tree.descend(path) {
                Descend::Found(UpperNode::Dir { children, .. }) => children.len() > 0,
                _ => false,
            };
            if !keep {
                tree.detach(path);
            }
        }
        k = k + 1;
    }
    assert(ev.take(entries@.len() as int) =~= ev);
}

// ── Layer lookup ───────────────────────────────────────────────────

/// Where a path resolved to during layer lookup.
#[derive(Debug, Clone, Copy, PartialEq, Eq, Structural)]
pub enum LayerResult {
    Whiteout,
    Upper,
    Lower,
    NotFound,
}

/// The layer a path lives in, given what the upper tree holds there and
/// whether the lower layer has it: upper content wins; a whiteout at or
/// above the path hides it; a file or symlink above it hides everything
/// beneath; otherwise the lower layer decides.
pub open spec fn layer_of(d: DescendView, in_lower: bool) -> LayerResult {
    match d {
        DescendView::Found(NodeView::Whiteout) => LayerResult::Whiteout,
        DescendView::Found(_) => LayerResult::Upper,
        DescendView::Blocked => LayerResult::Whiteout,
        DescendView::NotDir => LayerResult::NotFound,
        DescendView::Missing => if in_lower {
            LayerResult::Lower
        } else {
            LayerResult::NotFound
        },
    }
}

/// Determines which layer `path` lives in; the lower layer is asked only
/// when the upper tree has nothing to say.
pub fn resolve_layer<F: Fn(&str) -> bool>(tree: &OverlayTree, path: &str, lower_exists: &F) -> (r: LayerResult)
    requires
        tree.wf(),
        forall|p: &str| lower_exists.requires((p,)),
    ensures
        descend_in(tree@, segments_of(path@)) is Missing ==> exists|b: bool| probed(*lower_exists, path@, b) && r == layer_of(DescendView::Missing, b),
        !(descend_in(tree@, segments_of(path@)) is Missing) ==> r == layer_of(descend_in(tree@, segments_of(path@)), false),
{
    match tree.descend(path) {
        Descend::Found(UpperNode::Whiteout) => LayerResult::Whiteout,
        Descend::Found(_) => LayerResult::Upper,
        Descend::Blocked => LayerResult::Whiteout,
        Descend::NotDir => LayerResult::NotFound,
        Descend::Missing => {
            let present = lower_exists(path);
            let r = if present {
                LayerResult::Lower
            } else {
                LayerResult::NotFound
            };
            proof {
                assert(probed(*lower_exists, path@, present) && r == layer_of(DescendView::Missing, present));
            }
            r
        },
    }
}

/// The probe answered `r` for a path spelled `path`.
pub open spec fn probed_result<G: Fn(&str) -> Result<crate::vfs::types::Metadata, VfsError>>(
    g: G,
    path: Seq<char>,
    r: Result<crate::vfs::types::Metadata, VfsError>,
) -> bool {
    exists|p: &str| p@ == path && #[trigger] call_ensures(g, (p,), r)
}

/// `lstat` through the overlay (the final component is not followed):
/// upper content gives its metadata; a whiteout at or above the path is
/// `NotFound`, a file or symlink above it `NotADirectory` (both for
/// `orig`); otherwise the lower layer's `lstat` answers when the lower
/// layer has the path, and `NotFound` when it does not.
pub fn lstat_overlay<F: Fn(&str) -> bool, G: Fn(&str) -> Result<crate::vfs::types::Metadata, VfsError>>(
    tree: &OverlayTree,
    norm: &str,
    orig: &str,
    lower_exists: &F,
    lstat_lower: &G,
) -> (r: Result<crate::vfs::types::Metadata, VfsError>)
    requires
        tree.wf(),
        forall|p: &str| lower_exists.requires((p,)),
        forall|p: &str| lstat_lower.requires((p,)),
    ensures
        match descend_in(tree@, segments_of(norm@)) {
            DescendView::Found(NodeView::Whiteout) => r matches Err(VfsError::NotFound(p)) && p@ == orig@,
            DescendView::Found(n) => r == Ok::<crate::vfs::types::Metadata, VfsError>(crate::vfs::overlay_tree::meta_view(n)->0),
            DescendView::Blocked => r matches Err(VfsError::NotFound(p)) && p@ == orig@,
            DescendView::NotDir => r matches Err(VfsError::NotADirectory(p)) && p@ == orig@,
            DescendView::Missing => {
                ||| probed(*lower_exists, norm@, true) && probed_result(*lstat_lower, norm@, r)
                ||| probed(*lower_exists, norm@, false) && (r matches Err(VfsError::NotFound(p)) && p@ == orig@)
            },
        },
{
    match tree.descend(norm) {
        Descend::Found(UpperNode::Whiteout) => Err(VfsError::NotFound(orig.to_owned())),
        Descend::Blocked => Err(VfsError::NotFound(orig.to_owned())),
        Descend::NotDir => Err(VfsError::NotADirectory(orig.to_owned())),
        Descend::Found(_) => match tree.meta(norm) {
            Some(m) => Ok(m),
            None => Err(VfsError::NotFound(orig.to_owned())),
        },
        Descend::Missing => {
            let present = lower_exists(norm);
            proof {
                assert(probed(*lower_exists, norm@, present));
            }
            if present {
                let r = lstat_lower(norm);
                proof {
                    assert(probed_result(*lstat_lower, norm@, r));
                }
                r
            } else {
                Err(VfsError::NotFound(orig.to_owned()))
            }
        },
    }
}

// ── Merged directory listings ──────────────────────────────────────

/// Entries strictly sorted by name.
pub open spec fn listing_sorted(v: Seq<DirEntry>) -> bool {
    forall|i: int, j: int| 0 <= i < j < v.len() ==> chars_lt(#[trigger] v[i].name@, #[trigger] v[j].name@)
}

/// `v` lists exactly the names of `m`, sorted, each with its kind.
pub open spec fn listing_is(v: Seq<DirEntry>, m: Map<Seq<char>, NodeType>) -> bool {
    &&& listing_sorted(v)
    &&& forall|i: int| 0 <= i < v.len() ==> m.contains_key(#[trigger] v[i].name@) && m[v[i].name@] == v[i].node_type
    &&& forall|n: Seq<char>| #[trigger] m.contains_key(n) ==> exists|i: int| 0 <= i < v.len() && v[i].name@ == n
}

fn upsert_entry(v: &mut Vec<DirEntry>, name: String, kind: NodeType, Ghost(m): Ghost<Map<Seq<char>, NodeType>>)
    requires
        listing_is(old(v)@, m),
    ensures
        listing_is(final(v)@, m.insert(name@, kind)),
{
    let target = chars_of(name.as_str());
    let mut k: usize = 0;
    while k < v.len() && compare_chars(&chars_of(v[k].name.as_str()), &target) < 0
        invariant
            k <= v@.len(),
            target@ == name@,
            forall|i: int| 0 <= i < k ==> chars_lt(#[trigger] v@[i].name@, name@),
        decreases v.len() - k,
    {
        k = k + 1;
    }
    let ghost old_v = v@;
    let ghost m2 = m.insert(name@, kind);
    let same = k < v.len() && compare_chars(&chars_of(v[k].name.as_str()), &target) == 0;
    proof {
        if k < old_v.len() && !same {
            lemma_chars_lt_total(old_v[k as int].name@, name@);
        }
    }
    let ghost nv = name@;
    if same {
        v.set(k, DirEntry { name, node_type: kind });
        proof {
            assert forall|i: int, j: int| 0 <= i < j < v@.len() implies chars_lt(#[trigger] v@[i].name@, #[trigger] v@[j].name@) by {
                assert(v@[i].name@ == old_v[i].name@ && v@[j].name@ == old_v[j].name@);
            }
            assert forall|i: int| 0 <= i < v@.len() implies m2.contains_key(#[trigger] v@[i].name@) && m2[v@[i].name@] == v@[i].node_type by {
                if i != k {
                    assert(v@[i] == old_v[i]);
                    if old_v[i].name@ == nv {
                        if i < k {
                            lemma_chars_lt_irreflexive(nv);
                        } else {
                            lemma_chars_lt_irreflexive(nv);
                        }
                    }
                }
            }
            assert forall|n: Seq<char>| #[trigger] m2.contains_key(n) implies exists|i: int| 0 <= i < v@.len() && v@[i].name@ == n by {
                if n == nv {
                    assert(v@[k as int].name@ == n);
                } else {
                    assert(m.contains_key(n));
                    let i = choose|i: int| 0 <= i < old_v.len() && old_v[i].name@ == n;
                    if i != k {
                        assert(v@[i] == old_v[i]);
                    }
                }
            }
        }
    } else {
        v.insert(k, DirEntry { name, node_type: kind });
        proof {
            assert(v@ == old_v.insert(k as int, v@[k as int]));
            assert forall|i: int, j: int| 0 <= i < j < v@.len() implies chars_lt(#[trigger] v@[i].name@, #[trigger] v@[j].name@) by {
                if j < k {
                    assert(v@[i] == old_v[i] && v@[j] == old_v[j]);
                } else if j == k {
                    assert(v@[i] == old_v[i]);
                } else if i < k {
                    assert(v@[i] == old_v[i] && v@[j] == old_v[j - 1]);
                    if j - 1 > k {
                        assert(chars_lt(old_v[k as int].name@, old_v[j - 1].name@));
                        lemma_chars_lt_transitive(nv, old_v[k as int].name@, old_v[j - 1].name@);
                    }
                    lemma_chars_lt_transitive(old_v[i].name@, nv, old_v[j - 1].name@);
                } else if i == k {
                    assert(v@[j] == old_v[j - 1]);
                    if j - 1 > k {
                        assert(chars_lt(old_v[k as int].name@, old_v[j - 1].name@));
                        lemma_chars_lt_transitive(nv, old_v[k as int].name@, old_v[j - 1].name@);
                    }
                } else {
                    assert(v@[i] == old_v[i - 1] && v@[j] == old_v[j - 1]);
                }
            }
            assert forall|i: int| 0 <= i < v@.len() implies m2.contains_key(#[trigger] v@[i].name@) && m2[v@[i].name@] == v@[i].node_type by {
                if i < k {
                    assert(v@[i] == old_v[i]);
                    lemma_chars_lt_irreflexive(nv);
                } else if i > k {
                    assert(v@[i] == old_v[i - 1]);
                    if old_v[i - 1].name@ == nv {
                        if i - 1 > k {
                            assert(chars_lt(old_v[k as int].name@, old_v[i - 1].name@));
                            lemma_chars_lt_transitive(nv, old_v[k as int].name@, nv);
                        }
                        lemma_chars_lt_irreflexive(nv);
                    }
                }
            }
            assert forall|n: Seq<char>| #[trigger] m2.contains_key(n) implies exists|i: int| 0 <= i < v@.len() && v@[i].name@ == n by {
                if n == nv {
                    assert(v@[k as int].name@ == n);
                } else {
                    assert(m.contains_key(n));
                    let i = choose|i: int| 0 <= i < old_v.len() && old_v[i].name@ == n;
                    if i < k {
                        assert(v@[i] == old_v[i]);
                    } else {
                        assert(v@[i + 1] == old_v[i]);
                    }
                }
            }
        }
    }
}

fn remove_entry(v: &mut Vec<DirEntry>, name: &String, Ghost(m): Ghost<Map<Seq<char>, NodeType>>)
    requires
        listing_is(old(v)@, m),
    ensures
        listing_is(final(v)@, m.remove(name@)),
{
    let target = chars_of(name.as_str());
    let mut k: usize = 0;
    while k < v.len() && compare_chars(&chars_of(v[k].name.as_str()), &target) != 0
        invariant
            k <= v@.len(),
            target@ == name@,
            forall|i: int| 0 <= i < k ==> #[trigger] v@[i].name@ != name@,
        decreases v.len() - k,
    {
        k = k + 1;
    }
    let ghost old_v = v@;
    let ghost m2 = m.remove(name@);
    if k < v.len() {
        v.remove(k);
        proof {
            assert forall|i: int, j: int| 0 <= i < j < v@.len() implies chars_lt(#[trigger] v@[i].name@, #[trigger] v@[j].name@) by {
                if j < k {
                    assert(v@[i] == old_v[i] && v@[j] == old_v[j]);
                } else if i < k {
                    assert(v@[i] == old_v[i] && v@[j] == old_v[j + 1]);
                } else {
                    assert(v@[i] == old_v[i + 1] && v@[j] == old_v[j + 1]);
                }
            }
            assert forall|i: int| 0 <= i < v@.len() implies m2.contains_key(#[trigger] v@[i].name@) && m2[v@[i].name@] == v@[i].node_type by {
                let oi = if i < k { i } else { i + 1 };
                assert(v@[i] == old_v[oi]);
                if old_v[oi].name@ == name@ {
                    if oi < k {
                        assert(chars_lt(old_v[oi].name@, old_v[k as int].name@));
                    } else {
                        assert(chars_lt(old_v[k as int].name@, old_v[oi].name@));
                    }
                    lemma_chars_lt_irreflexive(name@);
                }
            }
            assert forall|n: Seq<char>| #[trigger] m2.contains_key(n) implies exists|i: int| 0 <= i < v@.len() && v@[i].name@ == n by {
                assert(m.contains_key(n) && n != name@);
                let i = choose|i: int| 0 <= i < old_v.len() && old_v[i].name@ == n;
                if i < k {
                    assert(v@[i] == old_v[i]);
                } else {
                    assert(i != k);
                    assert(v@[i - 1] == old_v[i]);
                }
            }
        }
    } else {
        proof {
            assert forall|n: Seq<char>| #[trigger] m2.contains_key(n) implies exists|i: int| 0 <= i < v@.len() && v@[i].name@ == n by {
                assert(m.contains_key(n));
            }
            assert(!m.contains_key(name@)) by {
                if m.contains_key(name@) {
                    let i = choose|i: int| 0 <= i < v@.len() && v@[i].name@ == name@;
                    assert(v@[i].name@ != name@);
                }
            }
            assert(m2 =~= m);
        }
    }
}

/// A lower entry called `name` in the directory `path` is hidden by a
/// whiteout at or above it.
pub open spec fn is_hidden(cs: Seq<(Seq<char>, NodeView)>, path: Seq<char>, name: Seq<char>) -> bool {
    let d = descend_in(cs, segments_of(joined(path, name)));
    d is Blocked || d == DescendView::Found(NodeView::Whiteout)
}

/// The lower listing, without hidden entries, as a map (a later entry of
/// the same name wins).
pub open spec fn lower_listing(cs: Seq<(Seq<char>, NodeView)>, path: Seq<char>, lower: Seq<(Seq<char>, NodeType)>) -> Map<Seq<char>, NodeType>
    decreases lower.len(),
{
    if lower.len() == 0 {
        Map::empty()
    } else {
        let m = lower_listing(cs, path, lower.drop_last());
        if is_hidden(cs, path, lower.last().0) {
            m
        } else {
            m.insert(lower.last().0, lower.last().1)
        }
    }
}

pub open spec fn insert_all(m: Map<Seq<char>, NodeType>, es: Seq<(Seq<char>, NodeType)>) -> Map<Seq<char>, NodeType>
    decreases es.len(),
{
    if es.len() == 0 {
        m
    } else {
        insert_all(m, es.drop_last()).insert(es.last().0, es.last().1)
    }
}

pub open spec fn remove_all(m: Map<Seq<char>, NodeType>, names: Seq<Seq<char>>) -> Map<Seq<char>, NodeType>
    decreases names.len(),
{
    if names.len() == 0 {
        m
    } else {
        remove_all(m, names.drop_last()).remove(names.last())
    }
}

/// The merged listing of the directory `path`: the visible lower entries,
/// overridden by the upper directory's entries, without its whiteouts.
pub open spec fn merged_listing(
    cs: Seq<(Seq<char>, NodeView)>,
    path: Seq<char>,
    lower: Option<Seq<(Seq<char>, NodeType)>>,
) -> Map<Seq<char>, NodeType> {
    let m = match lower {
        Some(l) => lower_listing(cs, path, l),
        None => Map::empty(),
    };
    match crate::vfs::overlay_tree::dir_at(cs, segments_of(path)) {
        Some(ch) => remove_all(insert_all(m, crate::vfs::overlay_tree::kinds_of(ch)), crate::vfs::overlay_tree::whiteout_names(ch)),
        None => m,
    }
}

/// Merges the listings of the directory `path`: the lower layer's entries
/// (`None` when it has no such directory) minus those hidden by
/// whiteouts, overridden by the upper entries, sorted by name.
pub fn merge_listing(tree: &OverlayTree, path: &str, lower: Option<Vec<DirEntry>>) -> (v: Vec<DirEntry>)
    requires
        tree.wf(),
    ensures
        listing_is(v@, merged_listing(tree@, path@, match lower {
            Some(l) => Some(listing_view(l@)),
            None => None,
        })),
{
    let mut out: Vec<DirEntry> = Vec::new();
    let ghost mut m = Map::<Seq<char>, NodeType>::empty();
    match lower {
        Some(entries) => {
            let ghost lv = listing_view(entries@);
            let mut k: usize = 0;
            assert(lv.take(0) =~= Seq::<(Seq<char>, NodeType)>::empty());
            while k < entries.len()
                invariant
                    tree.wf(),
                    k <= entries@.len(),
                    lv == listing_view(entries@),
                    m == lower_listing(tree@, path@, lv.take(k as int)),
                    listing_is(out@, m),
                decreases entries.len() - k,
            {
                proof {
                    assert(lv.take(k + 1).drop_last() =~= lv.take(k as int));
                    assert(lv.take(k + 1).last() == (entries@[k as int].name@, entries@[k as int].node_type));
                }
                let child = crate::vfs::paths::vfs_join(path, entries[k].name.as_str());
                if !tree.descend(child.as_str()).is_blocked_or_whiteout() {
                    upsert_entry(&mut out, entries[k].name.clone(), entries[k].node_type, Ghost(m));
                    proof {
                        m = m.insert(entries@[k as int].name@, entries@[k as int].node_type);
                    }
                }
                k = k + 1;
            }
            assert(lv.take(entries@.len() as int) =~= lv);
        },
        None => {},
    }
    let ghost base = m;
    let listed = tree.dir_entries(path);
    match listed {
        Some(ups) => {
            let ghost uv = listing_view(ups@);
            let mut k: usize = 0;
            assert(uv.take(0) =~= Seq::<(Seq<char>, NodeType)>::empty());
            while k < ups.len()
                invariant
                    k <= ups@.len(),
                    uv == listing_view(ups@),
                    m == insert_all(base, uv.take(k as int)),
                    listing_is(out@, m),
                decreases ups.len() - k,
            {
                proof {
                    assert(uv.take(k + 1).drop_last() =~= uv.take(k as int));
                    assert(uv.take(k + 1).last() == (ups@[k as int].name@, ups@[k as int].node_type));
                }
                upsert_entry(&mut out, ups[k].name.clone(), ups[k].node_type, Ghost(m));
                proof {
                    m = m.insert(ups@[k as int].name@, ups@[k as int].node_type);
                }
                k = k + 1;
            }
            assert(uv.take(ups@.len() as int) =~= uv);
            let wos = tree.whiteout_children(path);
            let ghost wv = strings_view(wos@);
            let ghost mid = m;
            let mut j: usize = 0;
            assert(wv.take(0) =~= Seq::<Seq<char>>::empty());
            while j < wos.len()
                invariant
                    j <= wos@.len(),
                    wv == strings_view(wos@),
                    m == remove_all(mid, wv.take(j as int)),
                    listing_is(out@, m),
                decreases wos.len() - j,
            {
                proof {
                    assert(wv.take(j + 1).drop_last() =~= wv.take(j as int));
                    assert(wv.take(j + 1).last() == wos@[j as int]@);
                }
                remove_entry(&mut out, &wos[j], Ghost(m));
                proof {
                    m = m.remove(wos@[j as int]@);
                }
                j = j + 1;
            }
            assert(wv.take(wos@.len() as int) =~= wv);
        },
        None => {},
    }
    out
}

// ── Laws of write-target resolution ────────────────────────────────

/// Resolution keeps a segment list clean: every result is a list with no
/// empty, `.` or `..` segment and no `/` inside a segment.
pub proof fn lemma_write_target_clean(
    cs: Seq<(Seq<char>, NodeView)>,
    segs: Seq<Seq<char>>,
    i: int,
    hops: int,
    follow_final: bool,
)
    requires
        clean_segments(segs),
        slash_free(segs),
        0 <= i <= segs.len(),
        hops <= 40,
    ensures
        write_target_from(cs, segs, i, hops, follow_final) matches Some(res) ==> clean_segments(res) && slash_free(res),
    decreases 40 - hops, segs.len() - i,
{
    if i < segs.len() {
        match descend_in(cs, segs.take(i + 1)) {
            DescendView::Found(NodeView::Symlink { target, .. }) if follow_final || i + 1 < segs.len() => {
                if hops + 1 <= 40 {
                    let base = if starts_with_slash(target) {
                        Seq::<Seq<char>>::empty()
                    } else {
                        segs.take(i)
                    };
                    let joined = base + segments_of(target) + segs.skip(i + 1);
                    lemma_resolve_dots_clean(joined);
                    lemma_segments_shape(target);
                    let next = resolve_dots(joined);
                    assert(slash_free(next)) by {
                        assert forall|a: int, b: int| 0 <= a < next.len() && 0 <= b < next[a].len() implies #[trigger] next[a][b] != '/' by {
                            assert(joined.contains(next[a]));
                            let k = choose|k: int| 0 <= k < joined.len() && joined[k] == next[a];
                            if k < base.len() {
                                assert(joined[k] == segs[k]);
                            } else if k < base.len() + segments_of(target).len() {
                                assert(joined[k] == segments_of(target)[k - base.len()]);
                            } else {
                                assert(joined[k] == segs[k - base.len() - segments_of(target).len() + i + 1]);
                            }
                        }
                    }
                    lemma_write_target_clean(cs, next, 0, hops + 1, follow_final);
                }
            },
            _ => {
                lemma_write_target_clean(cs, segs, i + 1, hops, follow_final);
            },
        }
    } else {
        assert forall|a: int| 0 <= a < segs.take(i).len() implies #[trigger] segs.take(i)[a] == segs[a] by {}
    }
}

/// No proper prefix of a resolved write target is an upper symlink: each
/// one met on the way was followed.
pub proof fn lemma_write_target_no_links(
    cs: Seq<(Seq<char>, NodeView)>,
    segs: Seq<Seq<char>>,
    i: int,
    hops: int,
    follow_final: bool,
)
    requires
        0 <= i <= segs.len(),
        forall|j: int| 0 <= j < i && j + 1 < segs.len() ==> !(#[trigger] descend_in(cs, segs.take(j + 1)) matches DescendView::Found(
            NodeView::Symlink { .. },
        )),
    ensures
        write_target_from(cs, segs, i, hops, follow_final) matches Some(res) ==> forall|k: int|
            1 <= k < res.len() ==> !(#[trigger] descend_in(cs, res.take(k)) matches DescendView::Found(NodeView::Symlink { .. })),
    decreases 40 - hops, segs.len() - i,
{
    if i < segs.len() {
        match descend_in(cs, segs.take(i + 1)) {
            DescendView::Found(NodeView::Symlink { target, .. }) if follow_final || i + 1 < segs.len() => {
                if hops + 1 <= 40 {
                    let base = if starts_with_slash(target) {
                        Seq::<Seq<char>>::empty()
                    } else {
                        segs.take(i)
                    };
                    let next = resolve_dots(base + segments_of(target) + segs.skip(i + 1));
                    lemma_write_target_no_links(cs, next, 0, hops + 1, follow_final);
                }
            },
            _ => {
                lemma_write_target_no_links(cs, segs, i + 1, hops, follow_final);
            },
        }
    } else {
        assert(segs.take(i) =~= segs);
        assert forall|k: int| 1 <= k < segs.len() implies !(#[trigger] descend_in(cs, segs.take(i).take(k)) matches DescendView::Found(
            NodeView::Symlink { .. },
        )) by {
            assert(segs.take(i).take(k) =~= segs.take(k));
            let j = k - 1;
            assert(segs.take(j + 1) =~= segs.take(k));
            assert(!(descend_in(cs, segs.take(j + 1)) matches DescendView::Found(NodeView::Symlink { .. })));
        }
    }
}

/// A resolved write target is a normalized absolute path: normalizing it
/// again changes nothing.
pub proof fn lemma_write_target_normalized(cs: Seq<(Seq<char>, NodeView)>, path: Seq<char>, follow_final: bool)
    ensures
        write_target_from(cs, resolve_dots(segments_of(path)), 0, 0, follow_final) matches Some(res)
            ==> normalized_absolute(absolute_of(res)) == absolute_of(res),
{
    let segs = resolve_dots(segments_of(path));
    lemma_resolve_dots_clean(segments_of(path));
    lemma_segments_shape(path);
    assert(slash_free(segs)) by {
        assert forall|a: int, b: int| 0 <= a < segs.len() && 0 <= b < segs[a].len() implies #[trigger] segs[a][b] != '/' by {
            assert(segments_of(path).contains(segs[a]));
            let k = choose|k: int| 0 <= k < segments_of(path).len() && segments_of(path)[k] == segs[a];
            assert(segments_of(path)[k][b] != '/');
        }
    }
    lemma_write_target_clean(cs, segs, 0, 0, follow_final);
    if let Some(res) = write_target_from(cs, segs, 0, 0, follow_final) {
        lemma_segments_of_absolute(res);
        lemma_resolve_dots_of_clean(res);
    }
}

/// A path with no upper symlink on any of its prefixes is its own write
/// target.
pub proof fn lemma_write_target_plain(cs: Seq<(Seq<char>, NodeView)>, p: Seq<Seq<char>>, i: int, follow_final: bool)
    requires
        0 <= i <= p.len(),
        forall|k: int| 1 <= k <= p.len() ==> !(#[trigger] descend_in(cs, p.take(k)) matches DescendView::Found(NodeView::Symlink { .. })),
    ensures
        write_target_from(cs, p, i, 0, follow_final) == Some(p),
    decreases p.len() - i,
{
    if i < p.len() {
        assert(descend_in(cs, p.take(i + 1)) == descend_in(cs, p.take(i + 1)));
        lemma_write_target_plain(cs, p, i + 1, follow_final);
    } else {
        assert(p.take(i) =~= p);
    }
}

} // verus!
