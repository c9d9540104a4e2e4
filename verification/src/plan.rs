//! The move plan and the per-move decision: for every scanned group, every
//! file is assigned exactly one move into its extension's subfolder under the
//! root, and a move whose destination is already occupied must fail rather
//! than replace what is there.
//!
//! The caller carries the plan out pair by pair, probing each destination and
//! renaming only when `move_step` says so; a failed move is its own affair and
//! never affects the other pairs.

use vstd::prelude::*;
use crate::paths::dest_of;
use crate::paths::ext_of_path;
use crate::scan::exts_in_order;
use crate::scan::group_views;
use crate::scan::grouping_of;
use crate::scan::lemma_exts_unique;
use crate::scan::lemma_group_members;
use crate::scan::lemma_scan_partition;
use crate::scan::occ;
use crate::scan::paths_with_ext;
use crate::scan::seq_views;

verus! {

/// The moves for one group: each path, in order, paired with its destination
/// in the subfolder named `e` under `base`.
pub open spec fn plan_for_group(base: Seq<char>, e: Seq<char>, ps: Seq<Seq<char>>) -> Seq<
    (Seq<char>, Seq<char>),
>
    decreases ps.len(),
{
    if ps.len() == 0 {
        Seq::empty()
    } else {
        plan_for_group(base, e, ps.drop_last()).push((ps.last(), dest_of(base, e, ps.last())))
    }
}

/// The whole move plan: the moves of every group, in group order.
pub open spec fn full_plan(base: Seq<char>, gs: Seq<(Seq<char>, Seq<Seq<char>>)>) -> Seq<
    (Seq<char>, Seq<char>),
>
    decreases gs.len(),
{
    if gs.len() == 0 {
        Seq::empty()
    } else {
        full_plan(base, gs.drop_last()) + plan_for_group(base, gs.last().0, gs.last().1)
    }
}

/// The views of a sequence of (source, destination) pairs.
pub open spec fn pair_views(mv: Seq<(String, String)>) -> Seq<(Seq<char>, Seq<char>)> {
    mv.map_values(|m: (String, String)| (m.0@, m.1@))
}

/// How many moves of `mv` have `p` as their source.
pub open spec fn src_occ(mv: Seq<(Seq<char>, Seq<char>)>, p: Seq<char>) -> nat
    decreases mv.len(),
{
    if mv.len() == 0 {
        0
    } else if mv.last().0 == p {
        src_occ(mv.drop_last(), p) + 1
    } else {
        src_occ(mv.drop_last(), p)
    }
}

/// One group's plan, pointwise: the `k`-th move takes the `k`-th path to its
/// destination under `base/e`.
pub proof fn lemma_plan_for_group(base: Seq<char>, e: Seq<char>, ps: Seq<Seq<char>>)
    ensures
        plan_for_group(base, e, ps).len() == ps.len(),
        forall|k: int|
            0 <= k < ps.len() ==> plan_for_group(base, e, ps)[k] == (
                ps[k],
                dest_of(base, e, ps[k]),
            ),
    decreases ps.len(),
{
    if ps.len() > 0 {
        lemma_plan_for_group(base, e, ps.drop_last());
        assert forall|k: int| 0 <= k < ps.len() implies plan_for_group(base, e, ps)[k] == (
            ps[k],
            dest_of(base, e, ps[k]),
        ) by {
            if k < ps.len() - 1 {
                assert(plan_for_group(base, e, ps)[k] == plan_for_group(
                    base,
                    e,
                    ps.drop_last(),
                )[k]);
                assert(ps.drop_last()[k] == ps[k]);
            }
        }
    }
}

/// The groups formed over `ps` by the extension list `es`.
spec fn groups_for(ps: Seq<Seq<char>>, es: Seq<Seq<char>>) -> Seq<(Seq<char>, Seq<Seq<char>>)> {
    es.map_values(|e: Seq<char>| (e, paths_with_ext(ps, e)))
}

proof fn lemma_src_occ_of_group(base: Seq<char>, e: Seq<char>, ps: Seq<Seq<char>>, p: Seq<char>)
    ensures
        src_occ(plan_for_group(base, e, ps), p) == occ(ps, p),
    decreases ps.len(),
{
    if ps.len() > 0 {
        lemma_src_occ_of_group(base, e, ps.drop_last(), p);
        let pre = plan_for_group(base, e, ps.drop_last());
        let m = (ps.last(), dest_of(base, e, ps.last()));
        assert(pre.push(m).drop_last() =~= pre);
    }
}

proof fn lemma_src_occ_add(
    a: Seq<(Seq<char>, Seq<char>)>,
    b: Seq<(Seq<char>, Seq<char>)>,
    p: Seq<char>,
)
    ensures
        src_occ(a + b, p) == src_occ(a, p) + src_occ(b, p),
    decreases b.len(),
{
    if b.len() == 0 {
        assert(a + b =~= a);
    } else {
        lemma_src_occ_add(a, b.drop_last(), p);
        assert((a + b).drop_last() =~= a + b.drop_last());
        assert((a + b).last() == b.last());
    }
}

/// A path occurs in `ps` exactly when it occurs a positive number of times.
pub proof fn lemma_occ_contains(ps: Seq<Seq<char>>, p: Seq<char>)
    ensures
        occ(ps, p) > 0 <==> ps.contains(p),
    decreases ps.len(),
{
    if ps.len() > 0 {
        lemma_occ_contains(ps.drop_last(), p);
        if ps.last() == p {
            assert(ps[ps.len() - 1] == p);
        } else {
            if occ(ps, p) > 0 {
                let i = choose|i: int|
                    0 <= i < ps.drop_last().len() && ps.drop_last()[i] == p;
                assert(ps[i] == p);
            }
            if ps.contains(p) {
                let i = choose|i: int| 0 <= i < ps.len() && ps[i] == p;
                assert(ps.drop_last()[i] == p);
            }
        }
    }
}

/// A listed extension stays listed when the path sequence grows.
proof fn lemma_exts_monotone(ps: Seq<Seq<char>>, e: Seq<char>)
    requires
        ps.len() > 0,
        exts_in_order(ps.drop_last()).contains(e),
    ensures
        exts_in_order(ps).contains(e),
{
    let rest = exts_in_order(ps.drop_last());
    let i = choose|i: int| 0 <= i < rest.len() && rest[i] == e;
    if exts_in_order(ps) != rest {
        assert(exts_in_order(ps)[i] == e);
    }
}

/// The extension of a path occurring in `ps` is listed.
proof fn lemma_ext_listed(ps: Seq<Seq<char>>, p: Seq<char>)
    requires
        ps.contains(p),
        ext_of_path(p) is Some,
    ensures
        exts_in_order(ps).contains(ext_of_path(p).unwrap()),
    decreases ps.len(),
{
    let e = ext_of_path(p).unwrap();
    if ps.last() == p {
        let rest = exts_in_order(ps.drop_last());
        if rest.contains(e) {
            lemma_exts_monotone(ps, e);
        } else {
            assert(exts_in_order(ps) == rest.push(e));
            assert(exts_in_order(ps)[rest.len() as int] == e);
        }
    } else {
        let i = choose|i: int| 0 <= i < ps.len() && ps[i] == p;
        assert(ps.drop_last()[i] == p);
        lemma_ext_listed(ps.drop_last(), p);
        lemma_exts_monotone(ps, e);
    }
}

/// How often `p` is a source in the plan of the groups formed by the listed
/// extensions `es` over `ps`: once per occurrence in `ps` when its extension
/// is listed, never otherwise.
proof fn lemma_plan_occ_over_exts(
    base: Seq<char>,
    ps: Seq<Seq<char>>,
    es: Seq<Seq<char>>,
    p: Seq<char>,
)
    requires
        forall|i: int, j: int| 0 <= i < j < es.len() ==> es[i] != es[j],
    ensures
        src_occ(full_plan(base, groups_for(ps, es)), p) == (
        if ext_of_path(p) is Some && es.contains(ext_of_path(p).unwrap()) {
            occ(ps, p)
        } else {
            0nat
        }),
    decreases es.len(),
{
    let gs = groups_for(ps, es);
    if es.len() == 0 {
        assert(gs.len() == 0);
    } else {
        let er = es.drop_last();
        let gr = groups_for(ps, er);
        assert forall|i: int, j: int| 0 <= i < j < er.len() implies er[i] != er[j] by {
            assert(es[i] == er[i] && es[j] == er[j]);
        }
        lemma_plan_occ_over_exts(base, ps, er, p);
        assert(gs.drop_last() =~= gr);
        assert(gs.last() == (es.last(), paths_with_ext(ps, es.last())));
        lemma_src_occ_add(
            full_plan(base, gr),
            plan_for_group(base, es.last(), paths_with_ext(ps, es.last())),
            p,
        );
        lemma_src_occ_of_group(base, es.last(), paths_with_ext(ps, es.last()), p);
        lemma_scan_partition(ps, p);
        if ext_of_path(p) is Some {
            let pe = ext_of_path(p).unwrap();
            if es.last() == pe {
                assert forall|i: int| 0 <= i < er.len() implies er[i] != pe by {
                    assert(es[i] == er[i]);
                    assert(es[es.len() - 1] == pe);
                }
                assert(!er.contains(pe));
                assert(es[es.len() - 1] == pe);
                assert(es.contains(pe));
            } else {
                if er.contains(pe) {
                    let i = choose|i: int| 0 <= i < er.len() && er[i] == pe;
                    assert(es[i] == pe);
                    assert(es.contains(pe));
                }
                if es.contains(pe) {
                    let i = choose|i: int| 0 <= i < es.len() && es[i] == pe;
                    assert(i < es.len() - 1);
                    assert(er[i] == pe);
                    assert(er.contains(pe));
                }
            }
        }
    }
}

/// Every pair of the plan of the groups formed by the listed extensions `es`
/// over `ps` moves a path of `ps` that carries a listed extension, to that
/// extension's folder.
proof fn lemma_plan_members_over_exts(base: Seq<char>, ps: Seq<Seq<char>>, es: Seq<Seq<char>>)
    ensures
        forall|k: int|
            0 <= k < full_plan(
                base,
                groups_for(ps, es),
            ).len() ==> {
                let mv = #[trigger] full_plan(
                    base,
                    groups_for(ps, es),
                )[k];
                &&& ext_of_path(mv.0) is Some
                &&& ps.contains(mv.0)
                &&& mv.1 == dest_of(base, ext_of_path(mv.0).unwrap(), mv.0)
            },
    decreases es.len(),
{
    let gs = groups_for(ps, es);
    if es.len() > 0 {
        let er = es.drop_last();
        let gr = groups_for(ps, er);
        lemma_plan_members_over_exts(base, ps, er);
        assert(gs.drop_last() =~= gr);
        assert(gs.last() == (es.last(), paths_with_ext(ps, es.last())));
        let e = es.last();
        let tail = plan_for_group(base, e, paths_with_ext(ps, e));
        lemma_plan_for_group(base, e, paths_with_ext(ps, e));
        lemma_group_members(ps, e);
        assert forall|k: int| 0 <= k < full_plan(base, gs).len() implies {
            let mv = #[trigger] full_plan(base, gs)[k];
            &&& ext_of_path(mv.0) is Some
            &&& ps.contains(mv.0)
            &&& mv.1 == dest_of(base, ext_of_path(mv.0).unwrap(), mv.0)
        } by {
            if k < full_plan(base, gr).len() {
                assert(full_plan(base, gs)[k] == full_plan(base, gr)[k]);
            } else {
                let t = k - full_plan(base, gr).len();
                assert(full_plan(base, gs)[k] == tail[t]);
                assert(tail[t] == (
                    paths_with_ext(ps, e)[t],
                    dest_of(base, e, paths_with_ext(ps, e)[t]),
                ));
            }
        }
    }
}

/// No file is lost, duplicated or invented by a run's move plan: over the
/// grouping of the scanned paths `ps`, each path with an extension is the
/// source of exactly one planned move per occurrence in `ps`, a path without
/// an extension is never a source, and every planned move takes a scanned
/// path to its own extension's folder under `base`.
pub proof fn lemma_plan_complete(base: Seq<char>, ps: Seq<Seq<char>>, p: Seq<char>)
    ensures
        src_occ(full_plan(base, grouping_of(ps)), p) == (if ext_of_path(p) is Some {
            occ(ps, p)
        } else {
            0nat
        }),
        forall|k: int|
            0 <= k < full_plan(base, grouping_of(ps)).len() ==> {
                let mv = #[trigger] full_plan(base, grouping_of(ps))[k];
                &&& ext_of_path(mv.0) is Some
                &&& ps.contains(mv.0)
                &&& mv.1 == dest_of(base, ext_of_path(mv.0).unwrap(), mv.0)
            },
{
    let es = exts_in_order(ps);
    assert(groups_for(ps, es) =~= grouping_of(ps));
    lemma_exts_unique(ps);
    lemma_plan_occ_over_exts(base, ps, es, p);
    lemma_plan_members_over_exts(base, ps, es);
    if ext_of_path(p) is Some && !es.contains(ext_of_path(p).unwrap()) {
        lemma_occ_contains(ps, p);
        if ps.contains(p) {
            lemma_ext_listed(ps, p);
        }
    }
}

/// Builds the move plan for the grouped files: for every group, in order, one
/// (source, destination) pair per path, in order, with the destination in the
/// extension's subfolder under `base`.
pub fn plan_moves(base: &str, groups: &Vec<(String, Vec<String>)>) -> (plan: Vec<(String, String)>)
    ensures
        pair_views(plan@) == full_plan(base@, group_views(groups@)),
{
    let ghost gv = group_views(groups@);
    let mut plan: Vec<(String, String)> = Vec::new();
    let mut g: usize = 0;
    proof {
        assert(pair_views(plan@) =~= full_plan(base@, gv.take(0)));
    }
    while g < groups.len()
        invariant
            g <= groups@.len(),
            gv == group_views(groups@),
            pair_views(plan@) == full_plan(base@, gv.take(g as int)),
        decreases groups@.len() - g,
    {
        let ghost done = full_plan(base@, gv.take(g as int));
        let ghost e = gv[g as int].0;
        let ghost members = gv[g as int].1;
        let mut k: usize = 0;
        proof {
            assert(members =~= seq_views(groups@[g as int].1@));
            assert(pair_views(plan@) =~= done + plan_for_group(base@, e, members.take(0)));
        }
        while k < groups[g].1.len()
            invariant
                g < groups@.len(),
                gv == group_views(groups@),
                e == gv[g as int].0,
                members == gv[g as int].1,
                members == seq_views(groups@[g as int].1@),
                k <= members.len(),
                done == full_plan(base@, gv.take(g as int)),
                pair_views(plan@) == done + plan_for_group(base@, e, members.take(k as int)),
            decreases groups@[g as int].1@.len() - k,
        {
            let src = groups[g].1[k].clone();
            let dst = crate::paths::move_dest(base, groups[g].0.as_str(), src.as_str());
            let ghost opv = pair_views(plan@);
            plan.push((src, dst));
            proof {
                assert(members.take(k as int + 1).drop_last() =~= members.take(k as int));
                assert(members.take(k as int + 1).last() == members[k as int]);
                assert(members[k as int] == src@);
                assert(groups@[g as int].0@ == e);
                assert(plan_for_group(base@, e, members.take(k as int + 1))
                    == plan_for_group(base@, e, members.take(k as int)).push(
                    (src@, dest_of(base@, e, src@)),
                ));
                assert(pair_views(plan@) =~= opv.push((src@, dst@)));
                assert(pair_views(plan@) =~= done + plan_for_group(
                    base@,
                    e,
                    members.take(k as int + 1),
                ));
            }
            k = k + 1;
        }
        proof {
            assert(members.take(members.len() as int) =~= members);
            assert(gv.take(g as int + 1).drop_last() =~= gv.take(g as int));
            assert(gv.take(g as int + 1).last() == gv[g as int]);
            assert(full_plan(base@, gv.take(g as int + 1)) == done + plan_for_group(
                base@,
                e,
                members,
            ));
        }
        g = g + 1;
    }
    proof {
        assert(gv.take(groups@.len() as int) =~= gv);
    }
    plan
}

/// What the filesystem reports at a planned move's destination path.
#[derive(Clone, Copy, Debug, PartialEq, Eq, Structural)]
pub enum DestProbe {
    /// Nothing exists at the destination path.
    Missing,
    /// Some entry already occupies the destination path.
    Exists,
}

/// What the move executor does for one planned move.
#[derive(Clone, Copy, Debug, PartialEq, Eq, Structural)]
pub enum MoveStep {
    /// The destination is free: rename the file into it.
    DoRename,
    /// The destination is occupied: report the move as failed, leave the
    /// source where it is, and go on with the next move.
    FailExists,
}

/// The move decision for one probed destination.
pub open spec fn move_step_spec(probe: DestProbe) -> MoveStep {
    match probe {
        DestProbe::Missing => MoveStep::DoRename,
        DestProbe::Exists => MoveStep::FailExists,
    }
}

/// Decides whether one planned move may rename, from what the filesystem
/// reports at its destination path. A rename onto an occupied destination
/// would silently replace it, so it is refused and reported instead.
pub fn move_step(probe: DestProbe) -> (r: MoveStep)
    ensures
        r == move_step_spec(probe),
        r == MoveStep::DoRename <==> probe == DestProbe::Missing,
        r == MoveStep::FailExists <==> probe == DestProbe::Exists,
{
    match probe {
        DestProbe::Missing => MoveStep::DoRename,
        DestProbe::Exists => MoveStep::FailExists,
    }
}

/// A move whose destination already exists fails and is reported; it is never
/// carried out, so the occupant is kept and the source stays in place.
pub proof fn lemma_existing_destination_fails(probe: DestProbe)
    requires
        probe == DestProbe::Exists,
    ensures
        move_step_spec(probe) == MoveStep::FailExists,
        move_step_spec(probe) != MoveStep::DoRename,
{
}

} // verus!
