//! `ReadWriteFs`, a passthrough to the host filesystem that may be
//! confined to a root directory, and the lexical normalization of host
//! paths it relies on.
use vstd::prelude::*;

use crate::error::VfsError;
use crate::text::{char_seqs, chars_of, compare_chars, push_char, push_chars, string_of};
use crate::vfs::overlay::absolute_path;
use crate::vfs::overlay_tree::{segments, strings_view};
use crate::vfs::paths::{
    absolute_of, joined, resolve_dot_segments, resolve_dots, segments_of, split_segments, trim_leading_slashes, vfs_append,
};

verus! {

/// A passthrough filesystem backed by the host filesystem. With no root,
/// paths go to the host as they are; with a root, they are confined to
/// the subtree below it, like a lightweight chroot.
#[derive(Debug)]
pub struct ReadWriteFs {
    root: Option<String>,
}

impl ReadWriteFs {
    /// Unrestricted access to the host filesystem.
    pub fn new() -> (fs: Self)
        ensures
            fs.root_path() is None,
    {
        ReadWriteFs { root: None }
    }

    /// Access restricted to the subtree below `root`, which the caller has
    /// canonicalized (an existing directory, symlinks resolved).
    pub fn with_root(root: String) -> (fs: Self)
        ensures
            fs.root_path() == Some(root@),
    {
        ReadWriteFs { root: Some(root) }
    }

    pub closed spec fn root_path(&self) -> Option<Seq<char>> {
        match self.root {
            Some(r) => Some(r@),
            None => None,
        }
    }

    /// The root the filesystem is confined to, if any.
    pub fn root(&self) -> (r: Option<&str>)
        ensures
            match r {
                Some(s) => self.root_path() == Some(s@),
                None => self.root_path() is None,
            },
    {
        match &self.root {
            Some(s) => Some(s.as_str()),
            None => None,
        }
    }
}

impl Default for ReadWriteFs {
    fn default() -> (fs: Self)
        ensures
            fs.root_path() is None,
    {
        ReadWriteFs::new()
    }
}

// ── Lexical normalization of host paths ────────────────────────────

pub open spec fn is_host_sep(c: char) -> bool {
    c == '/' || c == '\\'
}

/// The end of the run of separators starting at `i`.
pub open spec fn sep_run_end(s: Seq<char>, i: int) -> int
    decreases s.len() - i,
{
    if 0 <= i < s.len() && is_host_sep(s[i]) {
        sep_run_end(s, i + 1)
    } else {
        i
    }
}

/// Where the prefix of a host path ends: after the first `:` (a drive)
/// and the separators following it, or else after the leading separators.
pub open spec fn host_prefix_end(s: Seq<char>) -> int {
    if exists|k: int| 0 <= k < s.len() && s[k] == ':' {
        let c = choose|k: int| 0 <= k < s.len() && s[k] == ':' && forall|j: int| 0 <= j < k ==> s[j] != ':';
        sep_run_end(s, c + 1)
    } else {
        sep_run_end(s, 0)
    }
}

/// `s` with every backslash turned into `/`.
pub open spec fn slashes_only(s: Seq<char>) -> Seq<char> {
    s.map_values(|c: char| if c == '\\' { '/' } else { c })
}

/// Appends one component the way a host path buffer does: with a `/`
/// unless the path is empty or already ends with `/`.
pub open spec fn push_component(acc: Seq<char>, part: Seq<char>) -> Seq<char> {
    if acc.len() > 0 && acc.last() != '/' {
        acc + seq!['/'] + part
    } else {
        acc + part
    }
}

pub open spec fn push_components(acc: Seq<char>, parts: Seq<Seq<char>>) -> Seq<char>
    decreases parts.len(),
{
    if parts.len() == 0 {
        acc
    } else {
        push_component(push_components(acc, parts.drop_last()), parts.last())
    }
}

/// A host path with `.` and `..` resolved lexically: the prefix is kept,
/// the rest is split at `/` and `\\`, empty and `.` pieces go and `..`
/// drops the piece before it (none at the top).
pub open spec fn logically_normalized(s: Seq<char>) -> Seq<char> {
    let e = host_prefix_end(s);
    push_components(s.take(e), resolve_dots(segments_of(slashes_only(s.skip(e)))))
}

proof fn lemma_sep_run_end(s: Seq<char>, i: int)
    requires
        0 <= i <= s.len(),
    ensures
        i <= sep_run_end(s, i) <= s.len(),
    decreases s.len() - i,
{
    if i < s.len() && is_host_sep(s[i]) {
        lemma_sep_run_end(s, i + 1);
    }
}

/// Resolves `.` and `..` in a host path without touching the filesystem.
pub fn logical_normalize(path: &str) -> (r: String)
    ensures
        r@ == logically_normalized(path@),
{
    let s = chars_of(path);
    let ghost sv = s@;
    let mut k: usize = 0;
    while k < s.len() && s[k] != ':'
        invariant
            k <= s@.len(),
            sv == s@,
            forall|j: int| 0 <= j < k ==> s@[j] != ':',
        decreases s.len() - k,
    {
        k = k + 1;
    }
    let colon = k;
    proof {
        if colon == s@.len() {
            assert forall|x: int| 0 <= x < sv.len() implies sv[x] != ':' by {}
        }
    }
    let mut e: usize = if colon < s.len() { colon + 1 } else { 0 };
    let ghost e0 = e as int;
    while e < s.len() && (s[e] == '/' || s[e] == '\\')
        invariant
            e0 <= e <= s@.len(),
            sv == s@,
            sep_run_end(sv, e0) == sep_run_end(sv, e as int),
        decreases s.len() - e,
    {
        e = e + 1;
    }
    proof {
        if colon < s@.len() {
            assert(s@[colon as int] == ':');
            let c = choose|c: int| 0 <= c < sv.len() && sv[c] == ':' && forall|j: int| 0 <= j < c ==> sv[j] != ':';
            assert(c == colon) by {
                if c < colon {
                } else if c > colon {
                    assert(sv[colon as int] == ':');
                }
            }
            assert(host_prefix_end(sv) == e);
        } else {
            assert(host_prefix_end(sv) == e);
        }
    }
    let mut prefix: Vec<char> = Vec::new();
    let mut rest: Vec<char> = Vec::new();
    let mut j: usize = 0;
    while j < s.len()
        invariant
            j <= s@.len(),
            e <= s@.len(),
            sv == s@,
            j <= e ==> prefix@ == sv.take(j as int) && rest@.len() == 0,
            j > e ==> prefix@ == sv.take(e as int) && rest@ == slashes_only(sv.subrange(e as int, j as int)),
        decreases s.len() - j,
    {
        let c = s[j];
        if j < e {
            prefix.push(c);
            assert(prefix@ =~= sv.take(j + 1));
        } else {
            if c == '\\' {
                rest.push('/');
            } else {
                rest.push(c);
            }
            proof {
                if j == e {
                    assert(prefix@ =~= sv.take(e as int));
                }
                assert(rest@ =~= slashes_only(sv.subrange(e as int, j + 1)));
            }
        }
        j = j + 1;
    }
    proof {
        if e == s@.len() {
            assert(prefix@ =~= sv.take(e as int));
            assert(rest@ =~= slashes_only(sv.skip(e as int)));
        } else {
            assert(sv.subrange(e as int, sv.len() as int) =~= sv.skip(e as int));
        }
    }
    let rest_str = string_of(&rest);
    let parts = resolve_dot_segments(split_segments(rest_str.as_str()));
    let ghost ps = char_seqs(parts@);
    let mut out = string_of(&prefix);
    let mut i: usize = 0;
    assert(ps.take(0) =~= Seq::<Seq<char>>::empty());
    while i < parts.len()
        invariant
            i <= parts@.len(),
            ps == char_seqs(parts@),
            out@ == push_components(prefix@, ps.take(i as int)),
        decreases parts.len() - i,
    {
        proof {
            assert(ps.take(i + 1).drop_last() =~= ps.take(i as int));
            assert(ps.take(i + 1).last() == parts@[i as int]@);
        }
        let oc = chars_of(out.as_str());
        if oc.len() > 0 && oc[oc.len() - 1] != '/' {
            push_char(&mut out, '/');
        }
        push_chars(&mut out, &parts[i]);
        proof {
            assert(out@ =~= push_component(push_components(prefix@, ps.take(i as int)), ps.take(i + 1).last()));
        }
        i = i + 1;
    }
    assert(ps.take(parts@.len() as int) =~= ps);
    out
}

// ── Confinement to the root ────────────────────────────────────────

/// The host path that the VFS path `path` names below `root`: `path`
/// with its leading `/` dropped, joined to `root`, `.` and `..` resolved
/// lexically.
pub open spec fn rooted(root: Seq<char>, path: Seq<char>) -> Seq<char> {
    logically_normalized(
        if trim_leading_slashes(path).len() == 0 {
            root
        } else {
            joined(root, trim_leading_slashes(path))
        },
    )
}

/// Whether the host path `p` lies at or below `root`, component by
/// component.
pub fn within_root(root: &str, p: &str) -> (b: bool)
    ensures
        b == segments_of(root@).is_prefix_of(segments_of(p@)),
{
    let a = segments(root);
    let c = segments(p);
    let ghost sa = strings_view(a@);
    let ghost sc = strings_view(c@);
    if a.len() > c.len() {
        return false;
    }
    let mut i: usize = 0;
    while i < a.len()
        invariant
            i <= a@.len() <= c@.len(),
            sa == strings_view(a@),
            sc == strings_view(c@),
            sa == segments_of(root@),
            sc == segments_of(p@),
            forall|j: int| 0 <= j < i ==> sa[j] == sc[j],
        decreases a.len() - i,
    {
        let x = chars_of(a[i].as_str());
        let y = chars_of(c[i].as_str());
        if compare_chars(&x, &y) != 0 {
            proof {
                assert(sa[i as int] == a@[i as int]@);
                assert(sc[i as int] == c@[i as int]@);
                assert(sa[i as int] != sc[i as int]);
                assert(sc.subrange(0, sa.len() as int)[i as int] == sc[i as int]);
            }
            return false;
        }
        proof {
            assert(sa[i as int] == a@[i as int]@);
            assert(sc[i as int] == c@[i as int]@);
        }
        i = i + 1;
    }
    proof {
        assert(sa =~= sc.subrange(0, sa.len() as int));
    }
    true
}

/// Confines the VFS path `path` to `root` (an absolute, canonical host
/// path): traversal beyond the root is `PermissionDenied`; the root
/// itself is `None`; any other path is split into its parent and its
/// final component, for the caller to canonicalize the parent on disk.
pub fn confine(root: &str, path: &str) -> (r: Result<Option<(String, String)>, VfsError>)
    ensures
        ({
            let n = segments_of(rooted(root@, path@));
            let rs = segments_of(root@);
            &&& !rs.is_prefix_of(n) ==> (r matches Err(VfsError::PermissionDenied(p)) && p@ == path@)
            &&& rs.is_prefix_of(n) && n.len() == rs.len() ==> (r matches Ok(None))
            &&& rs.is_prefix_of(n) && n.len() > rs.len() ==> (r matches Ok(Some(pn)) && pn.1@ == n.last() && pn.0@ == absolute_of(
                n.drop_last(),
            ))
        }),
{
    let joined_path = vfs_append(root, path);
    let normalized = logical_normalize(joined_path.as_str());
    if !within_root(root, normalized.as_str()) {
        return Err(VfsError::PermissionDenied(path.to_owned()));
    }
    let mut ns = segments(normalized.as_str());
    let rs = segments(root);
    if ns.len() == rs.len() {
        return Ok(None);
    }
    let ghost n = strings_view(ns@);
    let name = match ns.pop() {
        Some(x) => x,
        None => {
            return Ok(None);
        },
    };
    proof {
        assert(strings_view(ns@) =~= n.drop_last());
    }
    let parent = absolute_path(&ns);
    Ok(Some((parent, name)))
}

} // verus!
