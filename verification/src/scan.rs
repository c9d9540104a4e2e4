//! Grouping scanned files by extension.
//!
//! The input is the list of file paths a directory walk discovered, in
//! discovery order. The result maps each distinct extension, in order of
//! first appearance, to the list of paths carrying it, in discovery order;
//! paths whose file name has no extension are set aside separately so the
//! caller can report them.

use vstd::prelude::*;
use crate::paths::ext_of_path;

verus! {

/// The views of a sequence of owned strings.
pub open spec fn seq_views(ss: Seq<String>) -> Seq<Seq<char>> {
    ss.map_values(|s: String| s@)
}

/// The views of a sequence of extension groups.
pub open spec fn group_views(gs: Seq<(String, Vec<String>)>) -> Seq<(Seq<char>, Seq<Seq<char>>)> {
    gs.map_values(|g: (String, Vec<String>)| (g.0@, seq_views(g.1@)))
}

/// The paths in `ps` whose extension is `e`, in order.
pub open spec fn paths_with_ext(ps: Seq<Seq<char>>, e: Seq<char>) -> Seq<Seq<char>>
    decreases ps.len(),
{
    if ps.len() == 0 {
        Seq::empty()
    } else if ext_of_path(ps.last()) == Some(e) {
        paths_with_ext(ps.drop_last(), e).push(ps.last())
    } else {
        paths_with_ext(ps.drop_last(), e)
    }
}

/// The paths in `ps` whose file name has no extension, in order.
pub open spec fn paths_sans_ext(ps: Seq<Seq<char>>) -> Seq<Seq<char>>
    decreases ps.len(),
{
    if ps.len() == 0 {
        Seq::empty()
    } else if ext_of_path(ps.last()) is None {
        paths_sans_ext(ps.drop_last()).push(ps.last())
    } else {
        paths_sans_ext(ps.drop_last())
    }
}

/// The distinct extensions occurring in `ps`, in order of first appearance.
pub open spec fn exts_in_order(ps: Seq<Seq<char>>) -> Seq<Seq<char>>
    decreases ps.len(),
{
    if ps.len() == 0 {
        Seq::empty()
    } else {
        let rest = exts_in_order(ps.drop_last());
        match ext_of_path(ps.last()) {
            Some(e) => if rest.contains(e) {
                rest
            } else {
                rest.push(e)
            },
            None => rest,
        }
    }
}

/// The full grouping of `ps`: each distinct extension, in order of first
/// appearance, paired with the paths carrying it.
pub open spec fn grouping_of(ps: Seq<Seq<char>>) -> Seq<(Seq<char>, Seq<Seq<char>>)> {
    exts_in_order(ps).map_values(|e: Seq<char>| (e, paths_with_ext(ps, e)))
}

/// The distinct extensions really are distinct: group keys are unique.
pub proof fn lemma_exts_unique(ps: Seq<Seq<char>>)
    ensures
        forall|i: int, j: int|
            0 <= i < j < exts_in_order(ps).len() ==> exts_in_order(ps)[i] != exts_in_order(ps)[j],
    decreases ps.len(),
{
    if ps.len() > 0 {
        lemma_exts_unique(ps.drop_last());
        let rest = exts_in_order(ps.drop_last());
        let es = exts_in_order(ps);
        if es != rest {
            assert forall|i: int, j: int| 0 <= i < j < es.len() implies es[i] != es[j] by {
                if j == es.len() - 1 {
                    assert(!rest.contains(es[j]));
                    assert(rest[i] == es[i]);
                }
            }
        }
    }
}

/// An extension that is not listed has no paths.
pub proof fn lemma_unlisted_ext_empty(ps: Seq<Seq<char>>, e: Seq<char>)
    requires
        !exts_in_order(ps).contains(e),
    ensures
        paths_with_ext(ps, e) == Seq::<Seq<char>>::empty(),
    decreases ps.len(),
{
    if ps.len() > 0 {
        let rest = exts_in_order(ps.drop_last());
        assert forall|k: int| 0 <= k < rest.len() implies rest[k] != e by {
            assert(exts_in_order(ps)[k] == rest[k]);
        }
        assert(!rest.contains(e));
        lemma_unlisted_ext_empty(ps.drop_last(), e);
        if ext_of_path(ps.last()) == Some(e) {
            assert(exts_in_order(ps) == rest.push(e));
            assert(exts_in_order(ps)[rest.len() as int] == e);
            assert(exts_in_order(ps).contains(e));
        }
    }
}

/// Every path of a group lies in `ps` and carries the group's extension, and
/// every listed extension heads a non-empty group: the data-model invariant
/// of a scan result.
pub proof fn lemma_group_members(ps: Seq<Seq<char>>, e: Seq<char>)
    ensures
        forall|k: int| 0 <= k < paths_with_ext(ps, e).len() ==> {
            &&& ps.contains(#[trigger] paths_with_ext(ps, e)[k])
            &&& ext_of_path(paths_with_ext(ps, e)[k]) == Some(e)
        },
        exts_in_order(ps).contains(e) ==> paths_with_ext(ps, e).len() > 0,
    decreases ps.len(),
{
    if ps.len() > 0 {
        lemma_group_members(ps.drop_last(), e);
        assert forall|k: int| 0 <= k < paths_with_ext(ps, e).len() implies {
            &&& ps.contains(#[trigger] paths_with_ext(ps, e)[k])
            &&& ext_of_path(paths_with_ext(ps, e)[k]) == Some(e)
        } by {
            let pre = paths_with_ext(ps.drop_last(), e);
            if k < pre.len() {
                assert(paths_with_ext(ps, e)[k] == pre[k]);
                let i = choose|i: int| 0 <= i < ps.drop_last().len() && ps.drop_last()[i] == pre[k];
                assert(ps[i] == pre[k]);
            } else {
                assert(paths_with_ext(ps, e)[k] == ps.last());
                assert(ps[ps.len() - 1] == ps.last());
            }
        }
        if exts_in_order(ps).contains(e) {
            let rest = exts_in_order(ps.drop_last());
            if !rest.contains(e) {
                let k = choose|k: int|
                    0 <= k < exts_in_order(ps).len() && exts_in_order(ps)[k] == e;
                if k < rest.len() {
                    assert(rest[k] == e);
                }
            }
        }
    }
}

/// How many times `p` occurs in `ps`.
pub open spec fn occ(ps: Seq<Seq<char>>, p: Seq<char>) -> nat
    decreases ps.len(),
{
    if ps.len() == 0 {
        0
    } else if ps.last() == p {
        occ(ps.drop_last(), p) + 1
    } else {
        occ(ps.drop_last(), p)
    }
}

/// A scan is a partition: a path with extension `e` occurs in the group of
/// `e` exactly as often as in the input, in no other group, and never among
/// the extensionless paths; a path without extension occurs among the
/// extensionless paths exactly as often as in the input and in no group.
/// Nothing is lost, duplicated or invented.
pub proof fn lemma_scan_partition(ps: Seq<Seq<char>>, p: Seq<char>)
    ensures
        ext_of_path(p) is Some ==> occ(paths_with_ext(ps, ext_of_path(p).unwrap()), p) == occ(
            ps,
            p,
        ),
        forall|e: Seq<char>|
            ext_of_path(p) != Some(e) ==> occ(#[trigger] paths_with_ext(ps, e), p) == 0,
        ext_of_path(p) is None ==> occ(paths_sans_ext(ps), p) == occ(ps, p),
        ext_of_path(p) is Some ==> occ(paths_sans_ext(ps), p) == 0,
    decreases ps.len(),
{
    if ps.len() > 0 {
        lemma_scan_partition(ps.drop_last(), p);
        let q = ps.last();
        assert forall|e: Seq<char>| ext_of_path(p) != Some(e) implies occ(
            #[trigger] paths_with_ext(ps, e),
            p,
        ) == 0 by {
            let pre = paths_with_ext(ps.drop_last(), e);
            if ext_of_path(q) == Some(e) {
                assert(pre.push(q).drop_last() =~= pre);
                assert(q != p);
            }
        }
        if ext_of_path(p) is Some {
            let e = ext_of_path(p).unwrap();
            if ext_of_path(q) == Some(e) {
                let pre = paths_with_ext(ps.drop_last(), e);
                assert(pre.push(q).drop_last() =~= pre);
            }
            if ext_of_path(q) is None {
                let sre = paths_sans_ext(ps.drop_last());
                assert(sre.push(q).drop_last() =~= sre);
                assert(q != p);
            }
        } else {
            if ext_of_path(q) is None {
                let sre = paths_sans_ext(ps.drop_last());
                assert(sre.push(q).drop_last() =~= sre);
            }
        }
    }
}

/// Appending a path whose extension `e` already heads group `j` changes the
/// grouping by pushing that path onto group `j` and nothing else.
proof fn lemma_step_existing(
    pre: Seq<Seq<char>>,
    p: Seq<char>,
    og: Seq<(String, Vec<String>)>,
    ng: Seq<(String, Vec<String>)>,
    j: int,
    c: String,
)
    requires
        group_views(og) == grouping_of(pre),
        0 <= j < og.len(),
        ext_of_path(p) == Some(og[j].0@),
        c@ == p,
        ng.len() == og.len(),
        forall|k: int| 0 <= k < og.len() && k != j ==> ng[k] == og[k],
        ng[j].0 == og[j].0,
        ng[j].1@ == og[j].1@.push(c),
    ensures
        group_views(ng) == grouping_of(pre.push(p)),
{
    let e = og[j].0@;
    let pre1 = pre.push(p);
    let es = exts_in_order(pre);
    assert(pre1.drop_last() =~= pre);
    lemma_exts_unique(pre);
    assert(grouping_of(pre).len() == es.len());
    assert(grouping_of(pre)[j] == (es[j], paths_with_ext(pre, es[j])));
    assert(group_views(og)[j] == (og[j].0@, seq_views(og[j].1@)));
    assert(es[j] == e);
    assert(es.contains(e));
    assert(exts_in_order(pre1) == es);
    assert forall|k: int| 0 <= k < ng.len() implies group_views(ng)[k] == grouping_of(pre1)[k] by {
        assert(group_views(og)[k] == grouping_of(pre)[k]);
        if k == j {
            assert(paths_with_ext(pre1, e) == paths_with_ext(pre, e).push(p));
            assert(seq_views(og[j].1@) == paths_with_ext(pre, e));
            assert(seq_views(ng[j].1@) =~= seq_views(og[j].1@).push(p));
        } else {
            assert(es[k] != e);
            assert(paths_with_ext(pre1, es[k]) == paths_with_ext(pre, es[k]));
        }
    }
    assert(group_views(ng) =~= grouping_of(pre1));
}

/// Appending a path whose extension `e` heads no group yet changes the
/// grouping by adding a new group holding exactly that path, at the end.
proof fn lemma_step_new(
    pre: Seq<Seq<char>>,
    p: Seq<char>,
    og: Seq<(String, Vec<String>)>,
    ng: Seq<(String, Vec<String>)>,
    e: Seq<char>,
    c: String,
)
    requires
        group_views(og) == grouping_of(pre),
        ext_of_path(p) == Some(e),
        forall|k: int| 0 <= k < og.len() ==> og[k].0@ != e,
        c@ == p,
        ng.len() == og.len() + 1,
        forall|k: int| 0 <= k < og.len() ==> ng[k] == og[k],
        ng[og.len() as int].0@ == e,
        ng[og.len() as int].1@.len() == 1,
        ng[og.len() as int].1@[0] == c,
    ensures
        group_views(ng) == grouping_of(pre.push(p)),
{
    let pre1 = pre.push(p);
    let es = exts_in_order(pre);
    assert(pre1.drop_last() =~= pre);
    lemma_exts_unique(pre);
    assert(grouping_of(pre).len() == es.len());
    assert(og.len() == es.len());
    assert forall|k: int| 0 <= k < es.len() implies es[k] != e by {
        assert(group_views(og)[k] == grouping_of(pre)[k]);
    }
    assert(!es.contains(e));
    assert(exts_in_order(pre1) == es.push(e));
    lemma_unlisted_ext_empty(pre, e);
    assert forall|k: int| 0 <= k < ng.len() implies group_views(ng)[k] == grouping_of(pre1)[k] by {
        if k < og.len() {
            assert(group_views(og)[k] == grouping_of(pre)[k]);
            assert(es[k] != e);
            assert(paths_with_ext(pre1, es[k]) == paths_with_ext(pre, es[k]));
            assert(exts_in_order(pre1)[k] == es[k]);
        } else {
            assert(exts_in_order(pre1)[k] == e);
            assert(paths_with_ext(pre1, e) == paths_with_ext(pre, e).push(p));
            assert(paths_with_ext(pre1, e) =~= seq![p]);
            assert(seq_views(ng[k].1@) =~= seq![p]);
        }
    }
    assert(group_views(ng) =~= grouping_of(pre1));
}

/// Index of the group whose key's view is `key`, if one exists.
fn find_group(groups: &Vec<(String, Vec<String>)>, key: &String) -> (r: Option<usize>)
    ensures
        match r {
            Some(j) => j < groups@.len() && groups@[j as int].0@ == key@,
            None => forall|k: int| 0 <= k < groups@.len() ==> groups@[k].0@ != key@,
        },
{
    let mut j: usize = 0;
    while j < groups.len()
        invariant
            j <= groups@.len(),
            forall|k: int| 0 <= k < j ==> groups@[k].0@ != key@,
        decreases groups@.len() - j,
    {
        if groups[j].0 == *key {
            return Some(j);
        }
        j = j + 1;
    }
    None
}

/// Groups the scanned file paths by extension.
///
/// The first component holds one group per distinct extension, in order of
/// first appearance, each with the paths carrying that extension in input
/// order; the second holds the paths whose file name has no extension, in
/// input order.
pub fn group_by_extension(files: &Vec<String>) -> (r: (Vec<(String, Vec<String>)>, Vec<String>))
    ensures
        group_views(r.0@) == grouping_of(seq_views(files@)),
        seq_views(r.1@) == paths_sans_ext(seq_views(files@)),
        r.0@.len() == exts_in_order(seq_views(files@)).len(),
        forall|k: int| 0 <= k < r.0@.len() ==> {
            &&& (#[trigger] r.0@[k]).0@ == exts_in_order(seq_views(files@))[k]
            &&& seq_views(r.0@[k].1@) == paths_with_ext(seq_views(files@), r.0@[k].0@)
        },
{
    let ghost all: Seq<Seq<char>> = seq_views(files@);
    let mut groups: Vec<(String, Vec<String>)> = Vec::new();
    let mut skipped: Vec<String> = Vec::new();
    let mut i: usize = 0;
    proof {
        assert(group_views(groups@) =~= grouping_of(all.take(0)));
        assert(seq_views(skipped@) =~= paths_sans_ext(all.take(0)));
    }
    while i < files.len()
        invariant
            i <= files@.len(),
            all == seq_views(files@),
            group_views(groups@) == grouping_of(all.take(i as int)),
            seq_views(skipped@) == paths_sans_ext(all.take(i as int)),
        decreases files@.len() - i,
    {
        let path = &files[i];
        let ghost pre = all.take(i as int);
        let ghost pre1 = all.take(i as int + 1);
        proof {
            assert(pre1.drop_last() =~= pre);
            assert(pre1.last() == path@);
            assert(pre1 =~= pre.push(path@));
        }
        match crate::paths::extension_of(path.as_str()) {
            None => {
                let ghost osk = skipped@;
                skipped.push(path.clone());
                proof {
                    assert(exts_in_order(pre1) == exts_in_order(pre));
                    assert forall|k: int|
                        0 <= k < grouping_of(pre).len() implies grouping_of(pre1)[k]
                        == grouping_of(pre)[k] by {
                        let e = exts_in_order(pre)[k];
                        assert(paths_with_ext(pre1, e) == paths_with_ext(pre, e));
                    }
                    assert(grouping_of(pre1) =~= grouping_of(pre));
                    assert(paths_sans_ext(pre1) == paths_sans_ext(pre).push(path@));
                    assert(seq_views(skipped@) =~= seq_views(osk).push(path@));
                }
            },
            Some(e) => {
                proof {
                    assert(paths_sans_ext(pre1) == paths_sans_ext(pre));
                }
                match find_group(&groups, &e) {
                    Some(j) => {
                        let ghost og = groups@;
                        let mut entry = groups.remove(j);
                        let cloned = path.clone();
                        entry.1.push(cloned);
                        groups.insert(j, entry);
                        proof {
                            assert(groups@ =~= og.update(j as int, entry));
                            lemma_step_existing(pre, path@, og, groups@, j as int, entry.1@.last());
                        }
                    },
                    None => {
                        let ghost og = groups@;
                        let cloned = path.clone();
                        let mut single: Vec<String> = Vec::new();
                        single.push(cloned);
                        groups.push((e, single));
                        proof {
                            lemma_step_new(pre, path@, og, groups@, e@, single@[0]);
                        }
                    },
                }
            },
        }
        i = i + 1;
    }
    proof {
        assert(all.take(files@.len() as int) =~= all);
        assert forall|k: int| 0 <= k < groups@.len() implies {
            &&& (#[trigger] groups@[k]).0@ == exts_in_order(all)[k]
            &&& seq_views(groups@[k].1@) == paths_with_ext(all, groups@[k].0@)
        } by {
            assert(group_views(groups@)[k] == grouping_of(all)[k]);
        }
    }
    (groups, skipped)
}

} // verus!
