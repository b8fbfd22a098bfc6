//! VFS paths always use Unix-style `/` separators; `\` is an ordinary
//! filename character. Everything here splits on `/` only.
use vstd::prelude::*;

use crate::error::VfsError;
use crate::text::{char_seqs, chars_of, push_char, push_chars, push_str, string_of};

verus! {

// ── Specification ──────────────────────────────────────────────────

/// State of a left-to-right scan of `s` that splits at `/`: the non-empty
/// pieces already closed, and the piece being read.
pub open spec fn scan_segments(s: Seq<char>) -> (Seq<Seq<char>>, Seq<char>)
    decreases s.len(),
{
    if s.len() == 0 {
        (seq![], seq![])
    } else {
        let (done, cur) = scan_segments(s.drop_last());
        if s.last() == '/' {
            if cur.len() > 0 {
                (done.push(cur), seq![])
            } else {
                (done, seq![])
            }
        } else {
            (done, cur.push(s.last()))
        }
    }
}

/// The non-empty pieces of `s` between `/` separators, in order.
pub open spec fn segments_of(s: Seq<char>) -> Seq<Seq<char>> {
    let (done, cur) = scan_segments(s);
    if cur.len() > 0 {
        done.push(cur)
    } else {
        done
    }
}

pub open spec fn is_dot(x: Seq<char>) -> bool {
    x == seq!['.']
}

pub open spec fn is_dot_dot(x: Seq<char>) -> bool {
    x == seq!['.', '.']
}

/// Lexical resolution of a segment list: empty and `.` segments vanish,
/// `..` removes the previous kept segment (nothing at the top).
pub open spec fn resolve_dots(segs: Seq<Seq<char>>) -> Seq<Seq<char>>
    decreases segs.len(),
{
    if segs.len() == 0 {
        seq![]
    } else {
        let prev = resolve_dots(segs.drop_last());
        let s = segs.last();
        if s.len() == 0 || is_dot(s) {
            prev
        } else if is_dot_dot(s) {
            if prev.len() > 0 {
                prev.drop_last()
            } else {
                prev
            }
        } else {
            prev.push(s)
        }
    }
}

/// `parts` joined with `/` between consecutive parts.
pub open spec fn join_slash(parts: Seq<Seq<char>>) -> Seq<char>
    decreases parts.len(),
{
    if parts.len() == 0 {
        seq![]
    } else if parts.len() == 1 {
        parts[0]
    } else {
        join_slash(parts.drop_last()) + seq!['/'] + parts.last()
    }
}

pub open spec fn starts_with_slash(s: Seq<char>) -> bool {
    s.len() > 0 && s[0] == '/'
}

pub open spec fn ends_with_slash(s: Seq<char>) -> bool {
    s.len() > 0 && s.last() == '/'
}

/// The absolute path spelled by a segment list: `/` followed by the
/// segments joined with `/`.
pub open spec fn absolute_of(parts: Seq<Seq<char>>) -> Seq<char> {
    seq!['/'] + join_slash(parts)
}

/// `s` with `.` and `..` resolved and separators collapsed, rooted at `/`.
pub open spec fn normalized_absolute(s: Seq<char>) -> Seq<char> {
    absolute_of(resolve_dots(segments_of(s)))
}

/// Lexical normalization that keeps a relative path relative.
pub open spec fn normalized(s: Seq<char>) -> Seq<char> {
    if starts_with_slash(s) {
        normalized_absolute(s)
    } else {
        join_slash(resolve_dots(segments_of(s)))
    }
}

/// `base` and `name` joined by exactly the separator that is missing.
pub open spec fn joined(base: Seq<char>, name: Seq<char>) -> Seq<char> {
    if ends_with_slash(base) {
        base + name
    } else {
        base + seq!['/'] + name
    }
}

/// `s` without its leading run of `/`.
pub open spec fn trim_leading_slashes(s: Seq<char>) -> Seq<char>
    decreases s.len(),
{
    if s.len() > 0 && s[0] == '/' {
        trim_leading_slashes(s.drop_first())
    } else {
        s
    }
}

/// A segment list in normal form: no empty, `.` or `..` segment.
pub open spec fn clean_segments(parts: Seq<Seq<char>>) -> bool {
    forall|i: int|
        0 <= i < parts.len() ==> {
            &&& (#[trigger] parts[i]).len() > 0
            &&& !is_dot(parts[i])
            &&& !is_dot_dot(parts[i])
        }
}

/// Every segment is free of `/`.
pub open spec fn slash_free(parts: Seq<Seq<char>>) -> bool {
    forall|i: int, j: int| 0 <= i < parts.len() && 0 <= j < parts[i].len() ==> #[trigger] parts[i][j] != '/'
}


// ── Laws ───────────────────────────────────────────────────────────

/// Reading a run of non-separator characters extends the current piece.
proof fn lemma_scan_plain(s: Seq<char>, p: Seq<char>)
    requires
        forall|j: int| 0 <= j < p.len() ==> p[j] != '/',
    ensures
        scan_segments(s + p) == (scan_segments(s).0, scan_segments(s).1 + p),
    decreases p.len(),
{
    if p.len() == 0 {
        assert(s + p =~= s);
        assert(scan_segments(s).1 + p =~= scan_segments(s).1);
    } else {
        lemma_scan_plain(s, p.drop_last());
        assert((s + p).drop_last() =~= s + p.drop_last());
        assert(scan_segments(s).1 + p.drop_last() + seq![p.last()] =~= scan_segments(s).1 + p);
    }
}

proof fn lemma_scan_root()
    ensures
        scan_segments(seq!['/']) == (Seq::<Seq<char>>::empty(), Seq::<char>::empty()),
{
    let r = seq!['/'];
    assert(r.drop_last() =~= Seq::<char>::empty());
    assert(r.last() == '/');
    assert(scan_segments(Seq::<char>::empty()) == (Seq::<Seq<char>>::empty(), Seq::<char>::empty()));
}

/// Scanning `/` followed by the first `k` segments joined with `/`.
proof fn lemma_scan_absolute_prefix(parts: Seq<Seq<char>>, k: int)
    requires
        clean_segments(parts),
        slash_free(parts),
        1 <= k <= parts.len(),
    ensures
        scan_segments(seq!['/'] + join_slash(parts.take(k))) == (parts.take(k - 1), parts[k - 1]),
    decreases k,
{
    lemma_scan_root();
    assert(forall|j: int| 0 <= j < parts[k - 1].len() ==> #[trigger] parts[k - 1][j] != '/');
    if k == 1 {
        assert(join_slash(parts.take(1)) == parts[0]);
        lemma_scan_plain(seq!['/'], parts[0]);
        assert(Seq::<char>::empty() + parts[0] =~= parts[0]);
        assert(parts.take(0) =~= Seq::<Seq<char>>::empty());
    } else {
        lemma_scan_absolute_prefix(parts, k - 1);
        let a = seq!['/'] + join_slash(parts.take(k - 1));
        assert(parts.take(k).drop_last() =~= parts.take(k - 1));
        assert(seq!['/'] + join_slash(parts.take(k)) =~= (a + seq!['/']) + parts[k - 1]);
        assert((a + seq!['/']).drop_last() =~= a);
        assert(parts[k - 2].len() > 0);
        assert(scan_segments(a + seq!['/']) == (parts.take(k - 2).push(parts[k - 2]), Seq::<char>::empty()));
        assert(parts.take(k - 2).push(parts[k - 2]) =~= parts.take(k - 1));
        lemma_scan_plain(a + seq!['/'], parts[k - 1]);
        assert(Seq::<char>::empty() + parts[k - 1] =~= parts[k - 1]);
    }
}

/// Spelling a clean segment list as an absolute path and splitting it
/// again gives back the list.
pub proof fn lemma_segments_of_absolute(parts: Seq<Seq<char>>)
    requires
        clean_segments(parts),
        slash_free(parts),
    ensures
        segments_of(absolute_of(parts)) == parts,
{
    if parts.len() == 0 {
        assert(absolute_of(parts) =~= seq!['/']);
        lemma_scan_root();
    } else {
        lemma_scan_absolute_prefix(parts, parts.len() as int);
        assert(parts.take(parts.len() as int) =~= parts);
        assert(parts.take(parts.len() - 1).push(parts[parts.len() - 1]) =~= parts);
    }
}

/// The pieces produced by splitting are non-empty and free of `/`.
pub proof fn lemma_segments_shape(s: Seq<char>)
    ensures
        forall|i: int| 0 <= i < segments_of(s).len() ==> (#[trigger] segments_of(s)[i]).len() > 0,
        slash_free(segments_of(s)),
{
    lemma_scan_shape(s);
}

proof fn lemma_scan_shape(s: Seq<char>)
    ensures
        forall|i: int| 0 <= i < scan_segments(s).0.len() ==> (#[trigger] scan_segments(s).0[i]).len() > 0,
        slash_free(scan_segments(s).0),
        forall|j: int| 0 <= j < scan_segments(s).1.len() ==> scan_segments(s).1[j] != '/',
    decreases s.len(),
{
    if s.len() > 0 {
        lemma_scan_shape(s.drop_last());
    }
}

/// Lexical resolution yields a clean list whose segments all come from
/// the input.
pub proof fn lemma_resolve_dots_clean(segs: Seq<Seq<char>>)
    ensures
        clean_segments(resolve_dots(segs)),
        forall|i: int| 0 <= i < resolve_dots(segs).len() ==> segs.contains(#[trigger] resolve_dots(segs)[i]),
    decreases segs.len(),
{
    if segs.len() > 0 {
        lemma_resolve_dots_clean(segs.drop_last());
        let prev = resolve_dots(segs.drop_last());
        assert forall|i: int| 0 <= i < resolve_dots(segs).len() implies segs.contains(#[trigger] resolve_dots(segs)[i]) by {
            if i < prev.len() {
                let x = prev[i];
                assert(segs.drop_last().contains(x));
                let j = choose|j: int| 0 <= j < segs.drop_last().len() && segs.drop_last()[j] == x;
                assert(segs[j] == x);
            } else {
                assert(segs[segs.len() - 1] == resolve_dots(segs)[i]);
            }
        }
    }
}

/// A clean list is left unchanged by lexical resolution.
pub proof fn lemma_resolve_dots_of_clean(parts: Seq<Seq<char>>)
    requires
        clean_segments(parts),
    ensures
        resolve_dots(parts) == parts,
    decreases parts.len(),
{
    if parts.len() > 0 {
        lemma_resolve_dots_of_clean(parts.drop_last());
        assert(parts.drop_last().push(parts.last()) =~= parts);
    }
}

/// Normalizing an already normalized absolute path changes nothing.
pub proof fn lemma_normalize_idempotent(s: Seq<char>)
    ensures
        normalized_absolute(normalized_absolute(s)) == normalized_absolute(s),
{
    let parts = resolve_dots(segments_of(s));
    lemma_resolve_dots_clean(segments_of(s));
    lemma_segments_shape(s);
    assert(slash_free(parts)) by {
        assert forall|i: int, j: int| 0 <= i < parts.len() && 0 <= j < parts[i].len() implies #[trigger] parts[i][j] != '/' by {
            assert(segments_of(s).contains(parts[i]));
            let k = choose|k: int| 0 <= k < segments_of(s).len() && segments_of(s)[k] == parts[i];
            assert(segments_of(s)[k][j] != '/');
        }
    }
    lemma_segments_of_absolute(parts);
    lemma_resolve_dots_of_clean(parts);
}

/// Splitting a normalized absolute path gives the resolved segments.
pub proof fn lemma_segments_of_normalized(s: Seq<char>)
    ensures
        segments_of(normalized_absolute(s)) == resolve_dots(segments_of(s)),
{
    let parts = resolve_dots(segments_of(s));
    lemma_resolve_dots_clean(segments_of(s));
    lemma_segments_shape(s);
    assert(slash_free(parts)) by {
        assert forall|i: int, j: int| 0 <= i < parts.len() && 0 <= j < parts[i].len() implies #[trigger] parts[i][j] != '/' by {
            assert(segments_of(s).contains(parts[i]));
            let k = choose|k: int| 0 <= k < segments_of(s).len() && segments_of(s)[k] == parts[i];
            assert(segments_of(s)[k][j] != '/');
        }
    }
    lemma_segments_of_absolute(parts);
}

/// A normalized absolute path is rooted and holds no empty, `.` or `..`
/// segment.
pub proof fn lemma_normalized_is_clean(s: Seq<char>)
    ensures
        starts_with_slash(normalized_absolute(s)),
        clean_segments(segments_of(normalized_absolute(s))),
{
    lemma_normalize_idempotent(s);
    let parts = resolve_dots(segments_of(s));
    lemma_resolve_dots_clean(segments_of(s));
    lemma_segments_shape(s);
    assert(slash_free(parts)) by {
        assert forall|i: int, j: int| 0 <= i < parts.len() && 0 <= j < parts[i].len() implies #[trigger] parts[i][j] != '/' by {
            assert(segments_of(s).contains(parts[i]));
            let k = choose|k: int| 0 <= k < segments_of(s).len() && segments_of(s)[k] == parts[i];
            assert(segments_of(s)[k][j] != '/');
        }
    }
    lemma_segments_of_absolute(parts);
}

/// Joining one more segment onto an absolute path spelled from segments
/// spells the longer list.
pub proof fn lemma_join_absolute(parts: Seq<Seq<char>>, s: Seq<char>)
    requires
        parts.len() == 0 || (parts.last().len() > 0 && parts.last().last() != '/'),
    ensures
        joined(absolute_of(parts), s) == absolute_of(parts.push(s)),
{
    if parts.len() == 0 {
        assert(join_slash(parts.push(s)) == s);
        assert(joined(absolute_of(parts), s) =~= absolute_of(parts.push(s)));
    } else {
        let j = join_slash(parts);
        assert(j.len() > 0 && j.last() == parts.last().last()) by {
            if parts.len() == 1 {
                assert(j == parts[0]);
            } else {
                assert(j == join_slash(parts.drop_last()) + seq!['/'] + parts.last());
            }
        }
        assert(parts.push(s).drop_last() =~= parts);
        assert(join_slash(parts.push(s)) == j + seq!['/'] + s);
        assert(joined(absolute_of(parts), s) =~= absolute_of(parts.push(s)));
    }
}

// ── Executable helpers ─────────────────────────────────────────────

/// The non-empty `/`-separated pieces of `s`.
pub fn split_segments(s: &str) -> (v: Vec<Vec<char>>)
    ensures
        char_seqs(v@) == segments_of(s@),
{
    let cs = chars_of(s);
    let mut done: Vec<Vec<char>> = Vec::new();
    let mut cur: Vec<char> = Vec::new();
    let mut i: usize = 0;
    while i < cs.len()
        invariant
            i <= cs.len(),
            (char_seqs(done@), cur@) == scan_segments(cs@.take(i as int)),
        decreases cs.len() - i,
    {
        let c = cs[i];
        assert(cs@.take(i + 1).drop_last() =~= cs@.take(i as int));
        if c == '/' {
            if cur.len() > 0 {
                let piece = cur;
                cur = Vec::new();
                done.push(piece);
                assert(char_seqs(done@) =~= scan_segments(cs@.take(i + 1)).0);
            }
        } else {
            cur.push(c);
        }
        i = i + 1;
    }
    assert(cs@.take(cs.len() as int) =~= cs@);
    if cur.len() > 0 {
        done.push(cur);
        assert(char_seqs(done@) =~= segments_of(s@));
    }
    done
}

fn is_dot_exec(x: &Vec<char>) -> (b: bool)
    ensures
        b == is_dot(x@),
{
    if x.len() == 1 && x[0] == '.' {
        assert(x@ =~= seq!['.']);
        true
    } else {
        false
    }
}

fn is_dot_dot_exec(x: &Vec<char>) -> (b: bool)
    ensures
        b == is_dot_dot(x@),
{
    if x.len() == 2 && x[0] == '.' && x[1] == '.' {
        assert(x@ =~= seq!['.', '.']);
        true
    } else {
        false
    }
}

/// Resolves `.` and `..` lexically (see [`resolve_dots`]).
pub fn resolve_dot_segments(segs: Vec<Vec<char>>) -> (out: Vec<Vec<char>>)
    ensures
        char_seqs(out@) == resolve_dots(char_seqs(segs@)),
{
    let mut out: Vec<Vec<char>> = Vec::new();
    let mut i: usize = 0;
    while i < segs.len()
        invariant
            i <= segs.len(),
            char_seqs(out@) == resolve_dots(char_seqs(segs@).take(i as int)),
        decreases segs.len() - i,
    {
        assert(char_seqs(segs@).take(i + 1).drop_last() =~= char_seqs(segs@).take(i as int));
        let s = &segs[i];
        if s.len() == 0 || is_dot_exec(s) {
        } else if is_dot_dot_exec(s) {
            if out.len() > 0 {
                out.pop();
                assert(char_seqs(out@) =~= resolve_dots(char_seqs(segs@).take(i + 1)));
            }
        } else {
            out.push(s.clone());
            assert(char_seqs(out@) =~= resolve_dots(char_seqs(segs@).take(i + 1)));
        }
        i = i + 1;
    }
    assert(char_seqs(segs@).take(segs.len() as int) =~= char_seqs(segs@));
    out
}

/// Appends `parts` joined by `/` to `out`.
pub fn push_joined(out: &mut String, parts: &Vec<Vec<char>>)
    ensures
        final(out)@ == old(out)@ + join_slash(char_seqs(parts@)),
{
    let mut i: usize = 0;
    while i < parts.len()
        invariant
            i <= parts.len(),
            out@ == old(out)@ + join_slash(char_seqs(parts@).take(i as int)),
        decreases parts.len() - i,
    {
        let ghost before = out@;
        if i > 0 {
            push_char(out, '/');
        }
        push_chars(out, &parts[i]);
        proof {
            let ps = char_seqs(parts@);
            assert(ps.take(i + 1).drop_last() =~= ps.take(i as int));
            if i == 0 {
                assert(join_slash(ps.take(0)) =~= seq![]);
            }
            assert(out@ =~= old(out)@ + join_slash(ps.take(i + 1)));
        }
        i = i + 1;
    }
    assert(char_seqs(parts@).take(parts.len() as int) =~= char_seqs(parts@));
}

// ── The VFS path API ───────────────────────────────────────────────

/// VFS paths always use Unix-style `/` separators, so absoluteness is a
/// leading `/` (never a host drive or UNC prefix).
pub fn vfs_path_is_absolute(path: &str) -> (b: bool)
    ensures
        b == starts_with_slash(path@),
{
    let cs = chars_of(path);
    cs.len() > 0 && cs[0] == '/'
}

/// Appends one component to a VFS path with a `/` separator (never the
/// host separator). `name` is meant to be a single component.
pub fn vfs_join(base: &str, name: &str) -> (p: String)
    ensures
        p@ == joined(base@, name@),
{
    let cs = chars_of(base);
    let mut s = string_of(&cs);
    if !(cs.len() > 0 && cs[cs.len() - 1] == '/') {
        push_char(&mut s, '/');
    }
    push_str(&mut s, name);
    s
}

/// Appends a relative multi-component path to a VFS path with `/`
/// separators; leading `/` of `rel` are dropped, and an empty remainder
/// leaves `base` unchanged.
pub fn vfs_append(base: &str, rel: &str) -> (p: String)
    ensures
        p@ == (if trim_leading_slashes(rel@).len() == 0 {
            base@
        } else {
            joined(base@, trim_leading_slashes(rel@))
        }),
{
    let rc = chars_of(rel);
    let mut k: usize = 0;
    assert(rc@.skip(0) =~= rc@);
    while k < rc.len() && rc[k] == '/'
        invariant
            k <= rc.len(),
            trim_leading_slashes(rc@) == trim_leading_slashes(rc@.skip(k as int)),
        decreases rc.len() - k,
    {
        assert(rc@.skip(k as int).drop_first() =~= rc@.skip(k + 1));
        k = k + 1;
    }
    assert(trim_leading_slashes(rc@.skip(k as int)) == rc@.skip(k as int));
    let mut s = string_of(&chars_of(base));
    if k == rc.len() {
        assert(rc@.skip(k as int) =~= seq![]);
        return s;
    }
    let bc = chars_of(base);
    if !(bc.len() > 0 && bc[bc.len() - 1] == '/') {
        push_char(&mut s, '/');
    }
    let mut j = k;
    while j < rc.len()
        invariant
            k <= j <= rc.len(),
            s@ == (if ends_with_slash(base@) { base@ } else { base@ + seq!['/'] }) + rc@.subrange(k as int, j as int),
        decreases rc.len() - j,
    {
        push_char(&mut s, rc[j]);
        j = j + 1;
        assert(s@ =~= (if ends_with_slash(base@) { base@ } else { base@ + seq!['/'] }) + rc@.subrange(k as int, j as int));
    }
    assert(rc@.subrange(k as int, rc.len() as int) =~= rc@.skip(k as int));
    s
}

/// Normalizes an absolute VFS path: resolves `.` and `..` (`..` at the
/// root stays at the root), collapses separators and strips trailing
/// ones. Empty and relative paths are rejected.
pub fn vfs_normalize_checked(path: &str) -> (r: Result<String, VfsError>)
    ensures
        match r {
            Ok(p) => starts_with_slash(path@) && p@ == normalized_absolute(path@),
            Err(VfsError::InvalidPath(m)) => {
                &&& !starts_with_slash(path@)
                &&& path@.len() == 0 ==> m@ == "empty path"@
                &&& path@.len() > 0 ==> m@ == "path must be absolute: "@ + path@
            },
            Err(_) => false,
        },
{
    let cs = chars_of(path);
    if cs.len() == 0 {
        return Err(VfsError::InvalidPath(String::from_str("empty path")));
    }
    if !vfs_path_is_absolute(path) {
        let mut m = String::from_str("path must be absolute: ");
        push_str(&mut m, path);
        return Err(VfsError::InvalidPath(m));
    }
    let parts = resolve_dot_segments(split_segments(path));
    let mut out = String::new();
    push_char(&mut out, '/');
    push_joined(&mut out, &parts);
    Ok(out)
}

/// Resolves a possibly-relative VFS path against `cwd` with `/`
/// separators only.
pub fn vfs_resolve(cwd: &str, path: &str) -> (p: String)
    ensures
        p@ == (if starts_with_slash(path@) { path@ } else { joined(cwd@, path@) }),
{
    if vfs_path_is_absolute(path) {
        string_of(&chars_of(path))
    } else {
        vfs_join(cwd, path)
    }
}

/// Resolves `.` and `..` without filesystem access; a relative input
/// stays relative.
pub fn vfs_normalize(path: &str) -> (p: String)
    ensures
        p@ == normalized(path@),
{
    let absolute = vfs_path_is_absolute(path);
    let parts = resolve_dot_segments(split_segments(path));
    let mut out = String::new();
    if absolute {
        push_char(&mut out, '/');
    }
    push_joined(&mut out, &parts);
    proof {
        if !absolute {
            assert(out@ =~= join_slash(resolve_dots(segments_of(path@))));
        }
    }
    out
}

} // verus!
