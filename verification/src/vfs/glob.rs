//! The directory walk behind glob expansion: pattern components are
//! matched one directory level at a time, `**` spans any number of
//! directories, hidden names are skipped unless the pattern asks for them,
//! and the number of results is capped. Listing a directory and matching
//! a name against one pattern component are the caller's probes.
use vstd::prelude::*;

use crate::text::{chars_of, push_char, push_str, string_of};
use crate::vfs::overlay::{lemma_seg_lt_asymmetric, lemma_seg_lt_irreflexive, lemma_seg_lt_total, lemma_seg_lt_transitive, path_less, path_lt, seg_lt};
use crate::vfs::overlay_tree::{segments, strings_view};
use crate::vfs::paths::{join_slash, joined, segments_of, starts_with_slash, vfs_join};

verus! {

/// A listing as plain values: each name with whether the walk may enter
/// it (a directory, or a symlink that may lead to one).
pub open spec fn entries_view(v: Seq<(String, bool)>) -> Seq<(Seq<char>, bool)> {
    v.map_values(|e: (String, bool)| (e.0@, e.1))
}

pub open spec fn listing_of(r: Option<Vec<(String, bool)>>) -> Option<Seq<(Seq<char>, bool)>> {
    match r {
        Some(v) => Some(entries_view(v@)),
        None => None,
    }
}

/// The spec functions `lists` and `mt` answer as the probes do: the
/// listing of each directory, and whether a name matches a pattern
/// component.
pub open spec fn walk_probes<L: Fn(&str) -> Option<Vec<(String, bool)>>, Mt: Fn(&str, &str) -> bool>(
    lists: spec_fn(Seq<char>) -> Option<Seq<(Seq<char>, bool)>>,
    mt: spec_fn(Seq<char>, Seq<char>) -> bool,
    list: L,
    matches: Mt,
) -> bool {
    &&& forall|p: &str, r: Option<Vec<(String, bool)>>| #[trigger] call_ensures(list, (p,), r) ==> lists(p@) == listing_of(r)
    &&& forall|p: &str, n: &str, b: bool| #[trigger] call_ensures(matches, (p, n), b) ==> mt(p@, n@) == b
}

/// A name starting with `.`.
pub open spec fn hidden_name(n: Seq<char>) -> bool {
    n.len() > 0 && n[0] == '.'
}

/// The component `**`.
pub open spec fn is_globstar(c: Seq<char>) -> bool {
    c == seq!['*', '*']
}

/// The results after walking `comps` from the directory `dir`, reported
/// under the path `cur`, appended to `acc`; at most `lv` more directory
/// levels are entered. No component left: `cur` itself is a result. Once
/// `max` results are there nothing more is added. `**` first matches no
/// directory (the rest of the pattern from here), then every non-hidden
/// enterable entry with `**` still in front; any other component keeps
/// the entries it matches (hidden ones only for a hidden pattern): the
/// last component reports them, an earlier one enters them.
pub open spec fn walk_spec(
    lists: spec_fn(Seq<char>) -> Option<Seq<(Seq<char>, bool)>>,
    mt: spec_fn(Seq<char>, Seq<char>) -> bool,
    dir: Seq<char>,
    cur: Seq<char>,
    comps: Seq<Seq<char>>,
    acc: Seq<Seq<char>>,
    max: nat,
    lv: nat,
) -> Seq<Seq<char>>
    decreases lv, comps.len(), 1int, 0int,
{
    if comps.len() == 0 {
        acc.push(cur)
    } else if acc.len() >= max {
        acc
    } else if is_globstar(comps[0]) {
        let a1 = walk_spec(lists, mt, dir, cur, comps.drop_first(), acc, max, lv);
        match lists(dir) {
            None => a1,
            Some(es) => star_spec(lists, mt, es, 0, dir, cur, comps, a1, max, lv),
        }
    } else {
        match lists(dir) {
            None => acc,
            Some(es) => pat_spec(lists, mt, es, 0, dir, cur, comps, acc, max, lv),
        }
    }
}

/// `**` over the entries `es` from `k` on.
pub open spec fn star_spec(
    lists: spec_fn(Seq<char>) -> Option<Seq<(Seq<char>, bool)>>,
    mt: spec_fn(Seq<char>, Seq<char>) -> bool,
    es: Seq<(Seq<char>, bool)>,
    k: int,
    dir: Seq<char>,
    cur: Seq<char>,
    comps: Seq<Seq<char>>,
    acc: Seq<Seq<char>>,
    max: nat,
    lv: nat,
) -> Seq<Seq<char>>
    decreases lv, comps.len(), 0int, es.len() - k,
{
    if k < 0 || k >= es.len() || acc.len() >= max {
        acc
    } else {
        let name = es[k].0;
        if !hidden_name(name) && es[k].1 && lv > 0 {
            let a1 = walk_spec(lists, mt, joined(dir, name), joined(cur, name), comps, acc, max, (lv - 1) as nat);
            star_spec(lists, mt, es, k + 1, dir, cur, comps, a1, max, lv)
        } else {
            star_spec(lists, mt, es, k + 1, dir, cur, comps, acc, max, lv)
        }
    }
}

/// A plain pattern component `comps[0]` over the entries `es` from `k` on.
pub open spec fn pat_spec(
    lists: spec_fn(Seq<char>) -> Option<Seq<(Seq<char>, bool)>>,
    mt: spec_fn(Seq<char>, Seq<char>) -> bool,
    es: Seq<(Seq<char>, bool)>,
    k: int,
    dir: Seq<char>,
    cur: Seq<char>,
    comps: Seq<Seq<char>>,
    acc: Seq<Seq<char>>,
    max: nat,
    lv: nat,
) -> Seq<Seq<char>>
    decreases lv, comps.len(), 0int, es.len() - k,
{
    if k < 0 || k >= es.len() || acc.len() >= max || comps.len() == 0 {
        acc
    } else {
        let name = es[k].0;
        let pat = comps[0];
        if (hidden_name(name) && !hidden_name(pat)) || !mt(pat, name) {
            pat_spec(lists, mt, es, k + 1, dir, cur, comps, acc, max, lv)
        } else if comps.len() == 1 {
            pat_spec(lists, mt, es, k + 1, dir, cur, comps, acc.push(joined(cur, name)), max, lv)
        } else if es[k].1 && lv > 0 {
            let a1 = walk_spec(lists, mt, joined(dir, name), joined(cur, name), comps.drop_first(), acc, max, (lv - 1) as nat);
            pat_spec(lists, mt, es, k + 1, dir, cur, comps, a1, max, lv)
        } else {
            pat_spec(lists, mt, es, k + 1, dir, cur, comps, acc, max, lv)
        }
    }
}

/// Walks `components[from..]` from the directory `dir`, reporting results
/// under `shown`, appending them to `results`; `levels` bounds how many
/// more directory levels are entered.
pub fn glob_walk_into<L, Mt>(
    dir: &str,
    shown: &str,
    components: &Vec<String>,
    from: usize,
    results: &mut Vec<String>,
    max: usize,
    levels: usize,
    list: &L,
    matches: &Mt,
) where
    L: Fn(&str) -> Option<Vec<(String, bool)>>,
    Mt: Fn(&str, &str) -> bool,

    requires
        from <= components@.len(),
        forall|p: &str| list.requires((p,)),
        forall|p: &str, n: &str| matches.requires((p, n)),
    ensures
        forall|lists: spec_fn(Seq<char>) -> Option<Seq<(Seq<char>, bool)>>, mt: spec_fn(Seq<char>, Seq<char>) -> bool|
            #[trigger] walk_probes(lists, mt, *list, *matches) ==> strings_view(final(results)@) == walk_spec(
                lists,
                mt,
                dir@,
                shown@,
                strings_view(components@).skip(from as int),
                strings_view(old(results)@),
                max as nat,
                levels as nat,
            ),
    decreases levels, components@.len() - from, 1int, 0int,
{
    let ghost cs = strings_view(components@).skip(from as int);
    let ghost acc_in = strings_view(results@);
    if from == components.len() {
        results.push(shown.to_owned());
        proof {
            assert(strings_view(results@) =~= acc_in.push(shown@));
        }
        return;
    }
    if results.len() >= max {
        return;
    }
    let pat = components[from].as_str();
    proof {
        assert(cs[0] == components@[from as int]@);
        assert(cs.drop_first() =~= strings_view(components@).skip(from + 1));
    }
    let pc = chars_of(pat);
    let star = pc.len() == 2 && pc[0] == '*' && pc[1] == '*';
    proof {
        if pc@.len() == 2 && pc@[0] == '*' && pc@[1] == '*' {
            assert(pc@ =~= seq!['*', '*']);
        }
    }
    let hidden_pat = pc.len() > 0 && pc[0] == '.';
    if star {
        glob_walk_into(dir, shown, components, from + 1, results, max, levels, list, matches);
        let ghost acc0 = strings_view(results@);
        let listed = list(dir);
        let ghost lr = listed;
        let es = match listed {
            Some(v) => v,
            None => {
                proof {
                    assert forall|lists: spec_fn(Seq<char>) -> Option<Seq<(Seq<char>, bool)>>, mt: spec_fn(Seq<char>, Seq<char>) -> bool|
                        #[trigger] walk_probes(lists, mt, *list, *matches) implies strings_view(results@) == walk_spec(
                        lists,
                        mt,
                        dir@,
                        shown@,
                        cs,
                        acc_in,
                        max as nat,
                        levels as nat,
                    ) by {
                        assert(call_ensures(*list, (dir,), lr));
                        assert(lists(dir@) == listing_of(lr));
                    }
                }
                return;
            },
        };
        let ghost ev = entries_view(es@);
        proof {
            assert forall|lists: spec_fn(Seq<char>) -> Option<Seq<(Seq<char>, bool)>>, mt: spec_fn(Seq<char>, Seq<char>) -> bool|
                #[trigger] walk_probes(lists, mt, *list, *matches) implies walk_spec(
                lists,
                mt,
                dir@,
                shown@,
                cs,
                acc_in,
                max as nat,
                levels as nat,
            ) == star_spec(lists, mt, ev, 0, dir@, shown@, cs, acc0, max as nat, levels as nat) by {
                assert(call_ensures(*list, (dir,), lr));
                assert(lists(dir@) == listing_of(lr));
            }
        }
        let mut k: usize = 0;
        while k < es.len()
            invariant
                k <= es@.len(),
                ev == entries_view(es@),
                acc_in == strings_view(old(results)@),
                from < components@.len(),
                cs == strings_view(components@).skip(from as int),
                forall|p: &str| list.requires((p,)),
                forall|p: &str, n: &str| matches.requires((p, n)),
                forall|lists: spec_fn(Seq<char>) -> Option<Seq<(Seq<char>, bool)>>, mt: spec_fn(Seq<char>, Seq<char>) -> bool|
                    #[trigger] walk_probes(lists, mt, *list, *matches) ==> star_spec(
                        lists,
                        mt,
                        ev,
                        k as int,
                        dir@,
                        shown@,
                        cs,
                        strings_view(results@),
                        max as nat,
                        levels as nat,
                    ) == star_spec(lists, mt, ev, 0, dir@, shown@, cs, acc0, max as nat, levels as nat),
                forall|lists: spec_fn(Seq<char>) -> Option<Seq<(Seq<char>, bool)>>, mt: spec_fn(Seq<char>, Seq<char>) -> bool|
                    #[trigger] walk_probes(lists, mt, *list, *matches) ==> walk_spec(
                        lists,
                        mt,
                        dir@,
                        shown@,
                        cs,
                        acc_in,
                        max as nat,
                        levels as nat,
                    ) == star_spec(lists, mt, ev, 0, dir@, shown@, cs, acc0, max as nat, levels as nat),
            decreases es.len() - k,
        {
            if results.len() >= max {
                proof {
                    assert forall|lists: spec_fn(Seq<char>) -> Option<Seq<(Seq<char>, bool)>>, mt: spec_fn(Seq<char>, Seq<char>) -> bool|
                        #[trigger] walk_probes(lists, mt, *list, *matches) implies strings_view(results@) == walk_spec(
                        lists,
                        mt,
                        dir@,
                        shown@,
                        cs,
                        acc_in,
                        max as nat,
                        levels as nat,
                    ) by {
                        assert(star_spec(lists, mt, ev, k as int, dir@, shown@, cs, strings_view(results@), max as nat, levels as nat) == strings_view(results@));
                    }
                }
                return;
            }
            let name = es[k].0.as_str();
            let enter = es[k].1;
            proof {
                assert(ev[k as int] == (name@, enter));
            }
            let nc = chars_of(name);
            let hidden = nc.len() > 0 && nc[0] == '.';
            let ghost before = strings_view(results@);
            if !hidden && enter && levels > 0 {
                let child_dir = vfs_join(dir, name);
                let child_shown = vfs_join(shown, name);
                glob_walk_into(child_dir.as_str(), child_shown.as_str(), components, from, results, max, levels - 1, list, matches);
            }
            k = k + 1;
        }
        return;
    }
    let listed = list(dir);
    let ghost lr = listed;
    let es = match listed {
        Some(v) => v,
        None => {
            proof {
                assert forall|lists: spec_fn(Seq<char>) -> Option<Seq<(Seq<char>, bool)>>, mt: spec_fn(Seq<char>, Seq<char>) -> bool|
                    #[trigger] walk_probes(lists, mt, *list, *matches) implies strings_view(results@) == walk_spec(
                    lists,
                    mt,
                    dir@,
                    shown@,
                    cs,
                    acc_in,
                    max as nat,
                    levels as nat,
                ) by {
                    assert(call_ensures(*list, (dir,), lr));
                    assert(lists(dir@) == listing_of(lr));
                }
            }
            return;
        },
    };
    let ghost ev = entries_view(es@);
    let ghost acc0 = strings_view(results@);
    proof {
        assert forall|lists: spec_fn(Seq<char>) -> Option<Seq<(Seq<char>, bool)>>, mt: spec_fn(Seq<char>, Seq<char>) -> bool|
            #[trigger] walk_probes(lists, mt, *list, *matches) implies walk_spec(
            lists,
            mt,
            dir@,
            shown@,
            cs,
            acc_in,
            max as nat,
            levels as nat,
        ) == pat_spec(lists, mt, ev, 0, dir@, shown@, cs, acc0, max as nat, levels as nat) by {
            assert(call_ensures(*list, (dir,), lr));
            assert(lists(dir@) == listing_of(lr));
        }
    }
    let mut k: usize = 0;
    while k < es.len()
        invariant
            k <= es@.len(),
            ev == entries_view(es@),
            acc_in == strings_view(old(results)@),
            from < components@.len(),
            cs == strings_view(components@).skip(from as int),
            pat@ == cs[0],
            hidden_pat == hidden_name(cs[0]),
            forall|p: &str| list.requires((p,)),
            forall|p: &str, n: &str| matches.requires((p, n)),
            forall|lists: spec_fn(Seq<char>) -> Option<Seq<(Seq<char>, bool)>>, mt: spec_fn(Seq<char>, Seq<char>) -> bool|
                #[trigger] walk_probes(lists, mt, *list, *matches) ==> pat_spec(
                    lists,
                    mt,
                    ev,
                    k as int,
                    dir@,
                    shown@,
                    cs,
                    strings_view(results@),
                    max as nat,
                    levels as nat,
                ) == pat_spec(lists, mt, ev, 0, dir@, shown@, cs, acc0, max as nat, levels as nat),
            forall|lists: spec_fn(Seq<char>) -> Option<Seq<(Seq<char>, bool)>>, mt: spec_fn(Seq<char>, Seq<char>) -> bool|
                #[trigger] walk_probes(lists, mt, *list, *matches) ==> walk_spec(
                    lists,
                    mt,
                    dir@,
                    shown@,
                    cs,
                    acc_in,
                    max as nat,
                    levels as nat,
                ) == pat_spec(lists, mt, ev, 0, dir@, shown@, cs, acc0, max as nat, levels as nat),
            cs.drop_first() == strings_view(components@).skip(from + 1),
            cs.len() == components@.len() - from,
        decreases es.len() - k,
    {
        if results.len() >= max {
            proof {
                assert forall|lists: spec_fn(Seq<char>) -> Option<Seq<(Seq<char>, bool)>>, mt: spec_fn(Seq<char>, Seq<char>) -> bool|
                    #[trigger] walk_probes(lists, mt, *list, *matches) implies strings_view(results@) == walk_spec(
                    lists,
                    mt,
                    dir@,
                    shown@,
                    cs,
                    acc_in,
                    max as nat,
                    levels as nat,
                ) by {
                    assert(pat_spec(lists, mt, ev, k as int, dir@, shown@, cs, strings_view(results@), max as nat, levels as nat) == strings_view(results@));
                }
            }
            return;
        }
        let name = es[k].0.as_str();
        let enter = es[k].1;
        proof {
            assert(ev[k as int] == (name@, enter));
        }
        let nc = chars_of(name);
        let hidden = nc.len() > 0 && nc[0] == '.';
        if !(hidden && !hidden_pat) {
            let m = matches(pat, name);
            if m {
                if from == components.len() - 1 {
                    let ghost before = strings_view(results@);
                    results.push(vfs_join(shown, name));
                    proof {
                        assert(strings_view(results@) =~= before.push(joined(shown@, name@)));
                    }
                } else if enter && levels > 0 {
                    let child_dir = vfs_join(dir, name);
                    let child_shown = vfs_join(shown, name);
                    glob_walk_into(child_dir.as_str(), child_shown.as_str(), components, from + 1, results, max, levels - 1, list, matches);
                }
            }
        }
        k = k + 1;
    }
}

/// Expands the pattern `components` from the directory `dir` (results
/// are reported under `dir` too): every path that matches, found by
/// listing directories with `list` and matching names with `matches`, in
/// the order of the listings, at most `max` of them (once `max` are
/// there the walk stops adding).
pub fn glob_walk<L, Mt>(dir: &str, components: &Vec<String>, max: usize, list: &L, matches: &Mt) -> (r: Vec<String>) where
    L: Fn(&str) -> Option<Vec<(String, bool)>>,
    Mt: Fn(&str, &str) -> bool,

    requires
        forall|p: &str| list.requires((p,)),
        forall|p: &str, n: &str| matches.requires((p, n)),
    ensures
        forall|lists: spec_fn(Seq<char>) -> Option<Seq<(Seq<char>, bool)>>, mt: spec_fn(Seq<char>, Seq<char>) -> bool|
            #[trigger] walk_probes(lists, mt, *list, *matches) ==> strings_view(r@) == walk_spec(
                lists,
                mt,
                dir@,
                dir@,
                strings_view(components@),
                Seq::<Seq<char>>::empty(),
                max as nat,
                usize::MAX as nat,
            ),
{
    let mut results: Vec<String> = Vec::new();
    proof {
        assert(strings_view(results@) =~= Seq::<Seq<char>>::empty());
        assert(strings_view(components@).skip(0) =~= strings_view(components@));
    }
    glob_walk_into(dir, dir, components, 0, &mut results, max, usize::MAX, list, matches);
    results
}

// ── What a walk may report ─────────────────────────────────────────

/// The path `cur` extended by the names `ns`, one level each.
pub open spec fn extended(cur: Seq<char>, ns: Seq<Seq<char>>) -> Seq<char>
    decreases ns.len(),
{
    if ns.len() == 0 {
        cur
    } else {
        extended(joined(cur, ns[0]), ns.drop_first())
    }
}

/// The names `ns` match the pattern components `comps` level by level:
/// `**` spans any number of names, none of them hidden (a globstar never
/// enters a hidden directory); any other component matches exactly one
/// name as `mt` says, a hidden name only when the component is hidden
/// itself.
pub open spec fn names_match(mt: spec_fn(Seq<char>, Seq<char>) -> bool, ns: Seq<Seq<char>>, comps: Seq<Seq<char>>) -> bool
    decreases comps.len(), ns.len(),
{
    if comps.len() == 0 {
        ns.len() == 0
    } else if is_globstar(comps[0]) {
        ||| names_match(mt, ns, comps.drop_first())
        ||| ns.len() > 0 && !hidden_name(ns[0]) && names_match(mt, ns.drop_first(), comps)
    } else {
        &&& ns.len() > 0
        &&& mt(comps[0], ns[0])
        &&& !hidden_name(ns[0]) || hidden_name(comps[0])
        &&& names_match(mt, ns.drop_first(), comps.drop_first())
    }
}

/// Each name of `ns` is an entry of the listing of the directory the
/// names before it lead to, from `dir`.
pub open spec fn listed_path(lists: spec_fn(Seq<char>) -> Option<Seq<(Seq<char>, bool)>>, dir: Seq<char>, ns: Seq<Seq<char>>) -> bool
    decreases ns.len(),
{
    ns.len() == 0 || (lists(dir) is Some && listed_in(lists(dir)->0, ns[0]) && listed_path(lists, joined(dir, ns[0]), ns.drop_first()))
}

/// The listing `es` has an entry called `n`.
pub open spec fn listed_in(es: Seq<(Seq<char>, bool)>, n: Seq<char>) -> bool {
    exists|k: int| 0 <= k < es.len() && (#[trigger] es[k]).0 == n
}

/// `p` is `cur` followed by names that were listed below `dir` and match
/// the pattern `comps`.
pub open spec fn found_below(
    lists: spec_fn(Seq<char>) -> Option<Seq<(Seq<char>, bool)>>,
    mt: spec_fn(Seq<char>, Seq<char>) -> bool,
    dir: Seq<char>,
    cur: Seq<char>,
    comps: Seq<Seq<char>>,
    p: Seq<char>,
) -> bool {
    exists|ns: Seq<Seq<char>>| #[trigger] names_match(mt, ns, comps) && p == extended(cur, ns) && listed_path(lists, dir, ns)
}

/// Prepending a listed, matched name to a tail found one level down.
proof fn lemma_found_step(
    lists: spec_fn(Seq<char>) -> Option<Seq<(Seq<char>, bool)>>,
    mt: spec_fn(Seq<char>, Seq<char>) -> bool,
    dir: Seq<char>,
    cur: Seq<char>,
    es: Seq<(Seq<char>, bool)>,
    k: int,
    tail_comps: Seq<Seq<char>>,
    comps: Seq<Seq<char>>,
    p: Seq<char>,
)
    requires
        lists(dir) == Some(es),
        0 <= k < es.len(),
        found_below(lists, mt, joined(dir, es[k].0), joined(cur, es[k].0), tail_comps, p),
        forall|ns: Seq<Seq<char>>| ns.len() > 0 && ns[0] == es[k].0 && #[trigger] names_match(mt, ns.drop_first(), tail_comps)
            ==> names_match(mt, ns, comps),
    ensures
        found_below(lists, mt, dir, cur, comps, p),
{
    let name = es[k].0;
    let tail = choose|ns: Seq<Seq<char>>|
        #[trigger] names_match(mt, ns, tail_comps) && p == extended(joined(cur, name), ns) && listed_path(
            lists,
            joined(dir, name),
            ns,
        );
    let ns = seq![name] + tail;
    assert(ns.drop_first() =~= tail);
    assert(ns[0] == name);
    assert(names_match(mt, ns.drop_first(), tail_comps));
    assert(names_match(mt, ns, comps));
    assert(extended(cur, ns) == extended(joined(cur, name), tail));
    assert(es[k].0 == ns[0]);
    assert(listed_in(es, ns[0]));
    assert(listed_path(lists, joined(dir, ns[0]), ns.drop_first()));
    assert(listed_path(lists, dir, ns));
}

/// Every result a walk adds is `cur` followed by names listed below `dir`
/// that match the pattern: in particular no name a `**` stands for is
/// hidden, and a hidden name appears only where the pattern component
/// itself is hidden. What was there before stays in front.
pub proof fn lemma_walk_reports_matches(
    lists: spec_fn(Seq<char>) -> Option<Seq<(Seq<char>, bool)>>,
    mt: spec_fn(Seq<char>, Seq<char>) -> bool,
    dir: Seq<char>,
    cur: Seq<char>,
    comps: Seq<Seq<char>>,
    acc: Seq<Seq<char>>,
    max: nat,
    lv: nat,
)
    ensures
        acc.is_prefix_of(walk_spec(lists, mt, dir, cur, comps, acc, max, lv)),
        forall|i: int|
            acc.len() <= i < walk_spec(lists, mt, dir, cur, comps, acc, max, lv).len() ==> found_below(
                lists,
                mt,
                dir,
                cur,
                comps,
                #[trigger] walk_spec(lists, mt, dir, cur, comps, acc, max, lv)[i],
            ),
    decreases lv, comps.len(), 1int, 0int,
{
    let w = walk_spec(lists, mt, dir, cur, comps, acc, max, lv);
    if comps.len() == 0 {
        let ns = Seq::<Seq<char>>::empty();
        assert(names_match(mt, ns, comps));
        assert(w[acc.len() as int] == extended(cur, ns));
        assert(acc.is_prefix_of(w));
    } else if acc.len() >= max {
        assert(acc.is_prefix_of(w));
    } else if is_globstar(comps[0]) {
        let a1 = walk_spec(lists, mt, dir, cur, comps.drop_first(), acc, max, lv);
        lemma_walk_reports_matches(lists, mt, dir, cur, comps.drop_first(), acc, max, lv);
        assert forall|i: int| acc.len() <= i < a1.len() implies found_below(lists, mt, dir, cur, comps, #[trigger] a1[i]) by {
            let ns = choose|ns: Seq<Seq<char>>|
                #[trigger] names_match(mt, ns, comps.drop_first()) && a1[i] == extended(cur, ns) && listed_path(lists, dir, ns);
            assert(names_match(mt, ns, comps));
        }
        match lists(dir) {
            None => {},
            Some(es) => {
                lemma_star_reports_matches(lists, mt, es, 0, dir, cur, comps, a1, max, lv);
                assert forall|i: int| acc.len() <= i < w.len() implies found_below(lists, mt, dir, cur, comps, #[trigger] w[i]) by {
                    if i < a1.len() {
                        assert(w[i] == a1[i]);
                    }
                }
                assert(acc.is_prefix_of(w)) by {
                    assert forall|i: int| 0 <= i < acc.len() implies acc[i] == w[i] by {
                        assert(acc[i] == a1[i]);
                        assert(a1[i] == w[i]);
                    }
                }
            },
        }
    } else {
        match lists(dir) {
            None => {},
            Some(es) => {
                lemma_pat_reports_matches(lists, mt, es, 0, dir, cur, comps, acc, max, lv);
            },
        }
    }
}

/// `**` over the entries `es` from `k` on reports only matches.
proof fn lemma_star_reports_matches(
    lists: spec_fn(Seq<char>) -> Option<Seq<(Seq<char>, bool)>>,
    mt: spec_fn(Seq<char>, Seq<char>) -> bool,
    es: Seq<(Seq<char>, bool)>,
    k: int,
    dir: Seq<char>,
    cur: Seq<char>,
    comps: Seq<Seq<char>>,
    acc: Seq<Seq<char>>,
    max: nat,
    lv: nat,
)
    requires
        lists(dir) == Some(es),
        comps.len() > 0,
        is_globstar(comps[0]),
    ensures
        acc.is_prefix_of(star_spec(lists, mt, es, k, dir, cur, comps, acc, max, lv)),
        forall|i: int|
            acc.len() <= i < star_spec(lists, mt, es, k, dir, cur, comps, acc, max, lv).len() ==> found_below(
                lists,
                mt,
                dir,
                cur,
                comps,
                #[trigger] star_spec(lists, mt, es, k, dir, cur, comps, acc, max, lv)[i],
            ),
    decreases lv, comps.len(), 0int, es.len() - k,
{
    let w = star_spec(lists, mt, es, k, dir, cur, comps, acc, max, lv);
    if k < 0 || k >= es.len() || acc.len() >= max {
        assert(acc.is_prefix_of(w));
    } else {
        let name = es[k].0;
        if es[k].1 && lv > 0 && !hidden_name(name) {
            let a1 = walk_spec(lists, mt, joined(dir, name), joined(cur, name), comps, acc, max, (lv - 1) as nat);
            lemma_walk_reports_matches(lists, mt, joined(dir, name), joined(cur, name), comps, acc, max, (lv - 1) as nat);
            lemma_star_reports_matches(lists, mt, es, k + 1, dir, cur, comps, a1, max, lv);
            assert forall|i: int| acc.len() <= i < a1.len() implies found_below(lists, mt, dir, cur, comps, #[trigger] a1[i]) by {
                assert forall|ns: Seq<Seq<char>>| ns.len() > 0 && ns[0] == es[k].0 && #[trigger] names_match(mt, ns.drop_first(), comps)
                    implies names_match(mt, ns, comps) by {}
                lemma_found_step(lists, mt, dir, cur, es, k, comps, comps, a1[i]);
            }
            assert forall|i: int| acc.len() <= i < w.len() implies found_below(lists, mt, dir, cur, comps, #[trigger] w[i]) by {
                if i < a1.len() {
                    assert(w[i] == a1[i]);
                }
            }
            assert(acc.is_prefix_of(w)) by {
                assert forall|i: int| 0 <= i < acc.len() implies acc[i] == w[i] by {
                    assert(acc[i] == a1[i]);
                    assert(a1[i] == w[i]);
                }
            }
        } else {
            lemma_star_reports_matches(lists, mt, es, k + 1, dir, cur, comps, acc, max, lv);
        }
    }
}

/// A plain pattern component over the entries `es` from `k` on reports
/// only matches.
proof fn lemma_pat_reports_matches(
    lists: spec_fn(Seq<char>) -> Option<Seq<(Seq<char>, bool)>>,
    mt: spec_fn(Seq<char>, Seq<char>) -> bool,
    es: Seq<(Seq<char>, bool)>,
    k: int,
    dir: Seq<char>,
    cur: Seq<char>,
    comps: Seq<Seq<char>>,
    acc: Seq<Seq<char>>,
    max: nat,
    lv: nat,
)
    requires
        lists(dir) == Some(es),
        comps.len() > 0,
        !is_globstar(comps[0]),
    ensures
        acc.is_prefix_of(pat_spec(lists, mt, es, k, dir, cur, comps, acc, max, lv)),
        forall|i: int|
            acc.len() <= i < pat_spec(lists, mt, es, k, dir, cur, comps, acc, max, lv).len() ==> found_below(
                lists,
                mt,
                dir,
                cur,
                comps,
                #[trigger] pat_spec(lists, mt, es, k, dir, cur, comps, acc, max, lv)[i],
            ),
    decreases lv, comps.len(), 0int, es.len() - k,
{
    let w = pat_spec(lists, mt, es, k, dir, cur, comps, acc, max, lv);
    if k < 0 || k >= es.len() || acc.len() >= max {
        assert(acc.is_prefix_of(w));
    } else {
        let name = es[k].0;
        let pat = comps[0];
        if (hidden_name(name) && !hidden_name(pat)) || !mt(pat, name) {
            lemma_pat_reports_matches(lists, mt, es, k + 1, dir, cur, comps, acc, max, lv);
        } else {
            let a1 = if comps.len() == 1 {
                acc.push(joined(cur, name))
            } else if es[k].1 && lv > 0 {
                walk_spec(lists, mt, joined(dir, name), joined(cur, name), comps.drop_first(), acc, max, (lv - 1) as nat)
            } else {
                acc
            };
            assert forall|ns: Seq<Seq<char>>| ns.len() > 0 && ns[0] == es[k].0 && #[trigger] names_match(mt, ns.drop_first(), comps.drop_first())
                implies names_match(mt, ns, comps) by {}
            if comps.len() == 1 {
                let ns = seq![name];
                assert(ns.drop_first() =~= Seq::<Seq<char>>::empty());
                assert(comps.drop_first().len() == 0);
                assert(names_match(mt, ns.drop_first(), comps.drop_first()));
                assert(names_match(mt, ns, comps));
                assert(extended(cur, ns) == extended(joined(cur, name), ns.drop_first()));
                assert(es[k].0 == ns[0]);
                assert(listed_path(lists, joined(dir, name), ns.drop_first()));
                assert(listed_in(es, ns[0]));
                assert(listed_path(lists, dir, ns));
                assert(found_below(lists, mt, dir, cur, comps, a1[acc.len() as int]));
            } else if es[k].1 && lv > 0 {
                lemma_walk_reports_matches(lists, mt, joined(dir, name), joined(cur, name), comps.drop_first(), acc, max, (lv - 1) as nat);
                assert forall|i: int| acc.len() <= i < a1.len() implies found_below(lists, mt, dir, cur, comps, #[trigger] a1[i]) by {
                    lemma_found_step(lists, mt, dir, cur, es, k, comps.drop_first(), comps, a1[i]);
                }
            }
            lemma_pat_reports_matches(lists, mt, es, k + 1, dir, cur, comps, a1, max, lv);
            assert forall|i: int| acc.len() <= i < w.len() implies found_below(lists, mt, dir, cur, comps, #[trigger] w[i]) by {
                if i < a1.len() {
                    assert(w[i] == a1[i]);
                }
            }
            assert(acc.is_prefix_of(w)) by {
                assert forall|i: int| 0 <= i < acc.len() implies acc[i] == w[i] by {
                    assert(acc[i] == a1[i]);
                    assert(a1[i] == w[i]);
                }
            }
        }
    }
}

// ── Expansion ──────────────────────────────────────────────────────

/// The most results one expansion collects.
pub const GLOB_MAX: usize = 100000;

/// `s` without its trailing run of `/`.
pub open spec fn trim_trailing_slashes(s: Seq<char>) -> Seq<char>
    decreases s.len(),
{
    if s.len() > 0 && s.last() == '/' {
        trim_trailing_slashes(s.drop_last())
    } else {
        s
    }
}

/// The pattern made absolute: a relative one is put below `cwd`.
pub open spec fn absolute_pattern(pattern: Seq<char>, cwd: Seq<char>) -> Seq<char> {
    if starts_with_slash(pattern) {
        pattern
    } else {
        trim_trailing_slashes(cwd) + seq!['/'] + pattern
    }
}

/// Paths in strictly increasing component order: no two share their
/// components.
pub open spec fn strictly_sorted(ps: Seq<Seq<char>>) -> bool {
    forall|i: int, j: int| 0 <= i < j < ps.len() ==> path_lt(#[trigger] ps[i], #[trigger] ps[j])
}

/// Some path of `s` has the components of `x`.
pub open spec fn has_same_components(s: Seq<Seq<char>>, x: Seq<char>) -> bool {
    exists|j: int| 0 <= j < s.len() && segments_of(#[trigger] s[j]) == segments_of(x)
}

/// `s` holds the results `w`, sorted, with duplicates (the same
/// components) dropped.
pub open spec fn sorted_dedup_of(s: Seq<Seq<char>>, w: Seq<Seq<char>>) -> bool {
    &&& strictly_sorted(s)
    &&& forall|i: int| 0 <= i < s.len() ==> w.contains(#[trigger] s[i])
    &&& forall|i: int| 0 <= i < w.len() ==> has_same_components(s, #[trigger] w[i])
}

/// The paths of `s` that lie below `cwd`, each made relative to it (its
/// remaining components joined by `/`), in order.
pub open spec fn relative_to(s: Seq<Seq<char>>, cwd: Seq<char>) -> Seq<Seq<char>>
    decreases s.len(),
{
    if s.len() == 0 {
        seq![]
    } else {
        let rest = relative_to(s.drop_last(), cwd);
        let x = segments_of(s.last());
        let c = segments_of(cwd);
        if c.is_prefix_of(x) {
            rest.push(join_slash(x.skip(c.len() as int)))
        } else {
            rest
        }
    }
}

/// What `glob` answers for the walk results `w`: sorted and without
/// duplicates; for a relative pattern, only those below `cwd`, made
/// relative to it.
pub open spec fn glob_outcome(r: Seq<Seq<char>>, w: Seq<Seq<char>>, pattern: Seq<char>, cwd: Seq<char>) -> bool {
    exists|s: Seq<Seq<char>>| {
        &&& #[trigger] sorted_dedup_of(s, w)
        &&& r == if starts_with_slash(pattern) {
            s
        } else {
            relative_to(s, cwd)
        }
    }
}

/// Inserts `x` in order unless a path with the same components is there.
fn insert_unique(out: &mut Vec<String>, x: String)
    requires
        strictly_sorted(strings_view(old(out)@)),
    ensures
        strictly_sorted(strings_view(final(out)@)),
        forall|y: Seq<char>| strings_view(final(out)@).contains(y) ==> strings_view(old(out)@).contains(y) || y == x@,
        forall|y: Seq<char>| strings_view(old(out)@).contains(y) ==> strings_view(final(out)@).contains(y),
        has_same_components(strings_view(final(out)@), x@),
{
    let ghost o = strings_view(out@);
    let mut k: usize = 0;
    while k < out.len() && path_less(out[k].as_str(), x.as_str())
        invariant
            k <= out@.len(),
            o == strings_view(out@),
            strictly_sorted(o),
            forall|i: int| 0 <= i < k ==> path_lt(#[trigger] o[i], x@),
        decreases out.len() - k,
    {
        proof {
            assert(o[k as int] == out@[k as int]@);
        }
        k = k + 1;
    }
    if k < out.len() && !path_less(x.as_str(), out[k].as_str()) {
        proof {
            assert(o[k as int] == out@[k as int]@);
            lemma_seg_lt_total(segments_of(o[k as int]), segments_of(x@));
        }
        return;
    }
    proof {
        if k < out@.len() {
            assert(o[k as int] == out@[k as int]@);
        }
    }
    out.insert(k, x);
    proof {
        let n = strings_view(out@);
        assert(n =~= o.subrange(0, k as int).push(x@) + o.subrange(k as int, o.len() as int));
        assert forall|i: int, j: int| 0 <= i < j < n.len() implies path_lt(#[trigger] n[i], #[trigger] n[j]) by {
            if j < k {
                assert(n[i] == o[i] && n[j] == o[j]);
            } else if j == k {
                assert(n[i] == o[i]);
            } else if i < k {
                assert(n[i] == o[i] && n[j] == o[j - 1]);
                if k < o.len() {
                    lemma_seg_lt_transitive(segments_of(o[i]), segments_of(x@), segments_of(o[k as int]));
                    if j - 1 > k {
                        lemma_seg_lt_transitive(segments_of(o[i]), segments_of(o[k as int]), segments_of(o[j - 1]));
                    }
                }
            } else if i == k {
                assert(n[j] == o[j - 1]);
                if j - 1 > k {
                    lemma_seg_lt_transitive(segments_of(x@), segments_of(o[k as int]), segments_of(o[j - 1]));
                }
            } else {
                assert(n[i] == o[i - 1] && n[j] == o[j - 1]);
            }
        }
        assert forall|y: Seq<char>| n.contains(y) implies o.contains(y) || y == x@ by {
            let i = choose|i: int| 0 <= i < n.len() && n[i] == y;
            if i < k {
                assert(o[i] == y);
            } else if i > k {
                assert(o[i - 1] == y);
            }
        }
        assert forall|y: Seq<char>| o.contains(y) implies n.contains(y) by {
            let i = choose|i: int| 0 <= i < o.len() && o[i] == y;
            if i < k {
                assert(n[i] == y);
            } else {
                assert(n[i + 1] == y);
            }
        }
        assert(n[k as int] == x@);
    }
}

/// The components of `parts` from `from` on, joined by `/`.
fn relative_path(parts: &Vec<String>, from: usize) -> (s: String)
    requires
        from <= parts@.len(),
    ensures
        s@ == join_slash(strings_view(parts@).skip(from as int)),
{
    let ghost sv = strings_view(parts@);
    let mut out = String::new();
    let mut k = from;
    proof {
        assert(sv.skip(from as int).take(0) =~= Seq::<Seq<char>>::empty());
    }
    while k < parts.len()
        invariant
            from <= k <= parts@.len(),
            sv == strings_view(parts@),
            out@ == join_slash(sv.skip(from as int).take(k - from)),
        decreases parts.len() - k,
    {
        let ghost prev = sv.skip(from as int).take(k - from);
        let ghost next = sv.skip(from as int).take(k + 1 - from);
        proof {
            assert(next.drop_last() =~= prev);
            assert(next.last() == parts@[k as int]@);
        }
        if k > from {
            push_char(&mut out, '/');
        }
        push_str(&mut out, parts[k].as_str());
        proof {
            if k == from {
                assert(prev.len() == 0);
                assert(out@ =~= next[0]);
            } else {
                assert(out@ =~= join_slash(prev) + seq!['/'] + next.last());
            }
        }
        k = k + 1;
    }
    proof {
        assert(sv.skip(from as int).take(parts@.len() - from) =~= sv.skip(from as int));
    }
    out
}

/// The pattern made absolute, as a string.
fn make_absolute(pattern: &str, cwd: &str) -> (abs: String)
    ensures
        abs@ == absolute_pattern(pattern@, cwd@),
{
    let pc = chars_of(pattern);
    if pc.len() > 0 && pc[0] == '/' {
        let mut abs = String::new();
        push_str(&mut abs, pattern);
        return abs;
    }
    let mut cc = chars_of(cwd);
    while cc.len() > 0 && cc[cc.len() - 1] == '/'
        invariant
            trim_trailing_slashes(cc@) == trim_trailing_slashes(cwd@),
        decreases cc.len(),
    {
        proof {
            assert(cc@.drop_last() == cc@.subrange(0, cc@.len() - 1));
        }
        cc.pop();
    }
    let mut abs = string_of(&cc);
    push_char(&mut abs, '/');
    push_str(&mut abs, pattern);
    abs
}

/// The paths of `walked`, sorted by components, duplicates dropped.
fn sort_dedup(walked: &Vec<String>) -> (s: Vec<String>)
    ensures
        sorted_dedup_of(strings_view(s@), strings_view(walked@)),
{
    let ghost wv = strings_view(walked@);
    let mut sorted: Vec<String> = Vec::new();
    let mut i: usize = 0;
    while i < walked.len()
        invariant
            i <= walked@.len(),
            wv == strings_view(walked@),
            strictly_sorted(strings_view(sorted@)),
            forall|k: int| 0 <= k < sorted@.len() ==> wv.contains(#[trigger] strings_view(sorted@)[k]),
            forall|k: int| 0 <= k < i ==> has_same_components(strings_view(sorted@), #[trigger] wv[k]),
        decreases walked.len() - i,
    {
        let ghost before = strings_view(sorted@);
        let x = walked[i].clone();
        insert_unique(&mut sorted, x);
        proof {
            let sv = strings_view(sorted@);
            assert(wv[i as int] == walked@[i as int]@);
            assert forall|k: int| 0 <= k < sorted@.len() implies wv.contains(#[trigger] sv[k]) by {
                assert(sv.contains(sv[k]));
                if before.contains(sv[k]) {
                    let m = choose|m: int| 0 <= m < before.len() && before[m] == sv[k];
                    assert(wv.contains(before[m]));
                } else {
                    assert(sv[k] == wv[i as int]);
                }
            }
            assert forall|k: int| 0 <= k < i + 1 implies has_same_components(sv, #[trigger] wv[k]) by {
                if k < i {
                    let j0 = choose|j: int| 0 <= j < before.len() && segments_of(#[trigger] before[j]) == segments_of(wv[k]);
                    assert(before.contains(before[j0]));
                    assert(sv.contains(before[j0]));
                    let j1 = choose|j: int| 0 <= j < sv.len() && sv[j] == before[j0];
                    assert(segments_of(sv[j1]) == segments_of(wv[k]));
                }
            }
        }
        i = i + 1;
    }
    proof {
        let sv = strings_view(sorted@);
        assert forall|k: int| 0 <= k < sv.len() implies wv.contains(#[trigger] sv[k]) by {
            assert(wv.contains(strings_view(sorted@)[k]));
        }
        assert(sorted_dedup_of(sv, wv));
    }
    sorted
}

/// The paths of `sorted` below `cwd`, made relative to it, in order.
fn make_relative(sorted: &Vec<String>, cwd: &str) -> (out: Vec<String>)
    ensures
        strings_view(out@) == relative_to(strings_view(sorted@), cwd@),
{
    let ghost sw = strings_view(sorted@);
    let cparts = segments(cwd);
    let mut out: Vec<String> = Vec::new();
    let mut k: usize = 0;
    proof {
        assert(sw.take(0) =~= Seq::<Seq<char>>::empty());
        assert(strings_view(out@) =~= relative_to(sw.take(0), cwd@));
    }
    while k < sorted.len()
        invariant
            k <= sorted@.len(),
            sw == strings_view(sorted@),
            strings_view(cparts@) == segments_of(cwd@),
            strings_view(out@) == relative_to(sw.take(k as int), cwd@),
        decreases sorted.len() - k,
    {
        let ghost prev = strings_view(out@);
        proof {
            assert(sw.take(k + 1).drop_last() =~= sw.take(k as int));
            assert(sw.take(k + 1).last() == sorted@[k as int]@);
        }
        if within_root_parts(&cparts, sorted[k].as_str()) {
            let parts = segments(sorted[k].as_str());
            let rel = relative_path(&parts, cparts.len());
            out.push(rel);
            proof {
                assert(strings_view(out@) =~= prev.push(join_slash(segments_of(sorted@[k as int]@).skip(segments_of(cwd@).len() as int))));
            }
        }
        k = k + 1;
    }
    proof {
        assert(sw.take(sorted@.len() as int) =~= sw);
    }
    out
}

/// Expands the glob `pattern` (relative ones below `cwd`): the walk of
/// the absolute pattern from `/`, sorted by components without
/// duplicates, and for a relative pattern each result made relative to
/// `cwd` (results not below it are left out).
pub fn glob<L, Mt>(pattern: &str, cwd: &str, list: &L, matches: &Mt) -> (r: Vec<String>) where
    L: Fn(&str) -> Option<Vec<(String, bool)>>,
    Mt: Fn(&str, &str) -> bool,

    requires
        forall|p: &str| list.requires((p,)),
        forall|p: &str, n: &str| matches.requires((p, n)),
    ensures
        forall|lists: spec_fn(Seq<char>) -> Option<Seq<(Seq<char>, bool)>>, mt: spec_fn(Seq<char>, Seq<char>) -> bool|
            #[trigger] walk_probes(lists, mt, *list, *matches) ==> glob_outcome(
                strings_view(r@),
                walk_spec(
                    lists,
                    mt,
                    "/"@,
                    "/"@,
                    segments_of(absolute_pattern(pattern@, cwd@)),
                    Seq::<Seq<char>>::empty(),
                    GLOB_MAX as nat,
                    usize::MAX as nat,
                ),
                pattern@,
                cwd@,
            ),
{
    let abs = make_absolute(pattern, cwd);
    let components = segments(abs.as_str());
    let root = "/";
    proof {
        reveal_strlit("/");
    }
    let walked = glob_walk(root, &components, GLOB_MAX, list, matches);
    let sorted = sort_dedup(&walked);
    let ghost sw = strings_view(sorted@);
    let pc = chars_of(pattern);
    let r = if pc.len() > 0 && pc[0] == '/' {
        sorted
    } else {
        make_relative(&sorted, cwd)
    };
    proof {
        assert forall|lists: spec_fn(Seq<char>) -> Option<Seq<(Seq<char>, bool)>>, mt: spec_fn(Seq<char>, Seq<char>) -> bool|
            #[trigger] walk_probes(lists, mt, *list, *matches) implies glob_outcome(
            strings_view(r@),
            walk_spec(
                lists,
                mt,
                "/"@,
                "/"@,
                segments_of(absolute_pattern(pattern@, cwd@)),
                Seq::<Seq<char>>::empty(),
                GLOB_MAX as nat,
                usize::MAX as nat,
            ),
            pattern@,
            cwd@,
        ) by {
            assert(sorted_dedup_of(sw, strings_view(walked@)));
        }
    }
    r
}

/// Whether the components `root` are a prefix of those of `p`.
fn within_root_parts(root: &Vec<String>, p: &str) -> (b: bool)
    ensures
        b == strings_view(root@).is_prefix_of(segments_of(p@)),
{
    let c = segments(p);
    let ghost sa = strings_view(root@);
    let ghost sc = strings_view(c@);
    if root.len() > c.len() {
        return false;
    }
    let mut i: usize = 0;
    while i < root.len()
        invariant
            i <= root@.len() <= c@.len(),
            sa == strings_view(root@),
            sc == strings_view(c@),
            sc == segments_of(p@),
            forall|j: int| 0 <= j < i ==> sa[j] == sc[j],
        decreases root.len() - i,
    {
        let x = chars_of(root[i].as_str());
        let y = chars_of(c[i].as_str());
        proof {
            assert(sa[i as int] == root@[i as int]@);
            assert(sc[i as int] == c@[i as int]@);
        }
        if crate::text::compare_chars(&x, &y) != 0 {
            proof {
                assert(sc.subrange(0, sa.len() as int)[i as int] == sc[i as int]);
            }
            return false;
        }
        i = i + 1;
    }
    proof {
        assert(sa =~= sc.subrange(0, sa.len() as int));
    }
    true
}

} // verus!
