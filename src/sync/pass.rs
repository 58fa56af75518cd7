//! One reconciliation pass over every node the tracking database or the
//! scheduler knows.
use vstd::prelude::*;

use crate::cluster::scheduler::{interpreted, nodes_status, report_actions, NodeReport, NodeStatus};
use crate::cluster::topology::Topology;
use crate::effects::{Action, Command, Notice};
use crate::entities::issue;
use crate::entities::target::TargetStatus;
use crate::facts::{
    lemma_added_kept, lemma_added_unscoped, lemma_closed_unscoped, lemma_desired_same_at,
    lemma_explains_same, lemma_grown_issue_on, lemma_handled_frame, lemma_handled_kept,
    lemma_kept_trans, lemma_same_kept, lemma_targets_extended_trans,
};
use crate::store::Store;
use crate::sync::{
    can_open, comment_room, desired_status, effect_of, explains, final_state, get_ctt_nodes,
    handle_transition, handled, has_open, issue_open, issues_closed, issues_grown, issues_on_kept,
    observable, open_wanted, targets_extended, Effect, Want,
};
use crate::text::str_eq;

verus! {

/// Whether some entry of `r` is named `name`.
fn lists_name(r: &Vec<(String, TargetStatus)>, name: &str) -> (b: bool)
    ensures
        b == exists|i: int| 0 <= i < r@.len() && (#[trigger] r@[i]).0@ == name@,
{
    let mut i: usize = 0;
    while i < r.len()
        invariant
            i <= r@.len(),
            forall|k: int| 0 <= k < i ==> (#[trigger] r@[k]).0@ != name@,
        decreases r@.len() - i,
    {
        if str_eq(r[i].0.as_str(), name) {
            return true;
        }
        i = i + 1;
    }
    false
}

/// `j` is the first status reported for `name`.
pub open spec fn first_status(statuses: Seq<NodeStatus>, name: Seq<char>, j: int) -> bool {
    &&& 0 <= j < statuses.len()
    &&& statuses[j].name@ == name
    &&& forall|k: int| 0 <= k < j ==> (#[trigger] statuses[k]).name@ != name
}

/// The first status reported for `name`.
fn find_status(statuses: &Vec<NodeStatus>, name: &str) -> (r: Option<usize>)
    ensures
        match r {
            Some(j) => first_status(statuses@, name@, j as int),
            None => forall|k: int| 0 <= k < statuses@.len() ==> (#[trigger] statuses@[k]).name@
                != name@,
        },
{
    let mut i: usize = 0;
    while i < statuses.len()
        invariant
            i <= statuses@.len(),
            forall|k: int| 0 <= k < i ==> (#[trigger] statuses@[k]).name@ != name@,
        decreases statuses@.len() - i,
    {
        if str_eq(statuses[i].name.as_str(), name) {
            return Some(i);
        }
        i = i + 1;
    }
    None
}

/// The nodes a pass handles: every stored target, in order, then every
/// real node the scheduler reported that is not stored, taken as `Online`,
/// each name once.
fn pass_nodes(db: &Store, statuses: &Vec<NodeStatus>, cluster: &Topology) -> (r: Vec<
    (String, TargetStatus),
>)
    requires
        db.wf(),
        cluster.wf(),
    ensures
        nodes_ok(r@, db, statuses@, cluster),
{
    let mut r = get_ctt_nodes(db);
    let ghost n0 = db.targets@.len();
    proof {
        assert forall|a: int, b: int| 0 <= a < b < r@.len() implies (#[trigger] r@[a]).0@
            != (#[trigger] r@[b]).0@ by {
            assert(db.targets@[a].name@ != db.targets@[b].name@);
        }
    }
    let mut j: usize = 0;
    while j < statuses.len()
        invariant
            db.wf(),
            cluster.wf(),
            n0 == db.targets@.len(),
            j <= statuses@.len(),
            r@.len() >= n0,
            forall|i: int|
                0 <= i < n0 ==> (#[trigger] r@[i]).0@ == db.targets@[i].name@ && r@[i].1
                    == db.targets@[i].status,
            forall|i: int|
                n0 <= i < r@.len() ==> {
                    &&& (#[trigger] r@[i]).1 == TargetStatus::Online
                    &&& cluster.is_real(r@[i].0@)
                    &&& !db.holds_target(r@[i].0@)
                    &&& exists|k: int| 0 <= k < statuses@.len() && statuses@[k].name@ == r@[i].0@
                },
            forall|k: int|
                0 <= k < j && cluster.is_real(statuses@[k].name@) && !db.holds_target(
                    statuses@[k].name@,
                ) ==> exists|i: int| 0 <= i < r@.len() && (#[trigger] r@[i]).0@ == statuses@[k].name@,
            forall|a: int, b: int|
                0 <= a < b < r@.len() ==> (#[trigger] r@[a]).0@ != (#[trigger] r@[b]).0@,
        decreases statuses@.len() - j,
    {
        let name = statuses[j].name.as_str();
        if !lists_name(&r, name) && cluster.real_node(name) {
            proof {
                if db.holds_target(name@) {
                    let t = choose|t: int| 0 <= t < db.targets@.len() && #[trigger] db.targets@[t].name@ == name@;
                    assert(r@[t].0@ == name@);
                }
            }
            let ghost before = r@;
            r.push((statuses[j].name.clone(), TargetStatus::Online));
            proof {
                assert forall|k: int|
                    0 <= k < j + 1 && cluster.is_real(statuses@[k].name@) && !db.holds_target(
                        statuses@[k].name@,
                    ) implies exists|i: int| 0 <= i < r@.len() && (#[trigger] r@[i]).0@ == statuses@[k].name@ by {
                    if k < j {
                        let i = choose|i: int| 0 <= i < before.len() && (#[trigger] before[i]).0@ == statuses@[k].name@;
                        assert(r@[i] == before[i]);
                    } else {
                        assert(r@[before.len() as int].0@ == statuses@[k].name@);
                    }
                }
                assert forall|a: int, b: int|
                    0 <= a < b < r@.len() implies (#[trigger] r@[a]).0@ != (#[trigger] r@[b]).0@ by {
                    if b == before.len() {
                        assert(r@[a] == before[a]);
                    } else {
                        assert(r@[a] == before[a]);
                        assert(r@[b] == before[b]);
                    }
                }
                assert forall|i: int| n0 <= i < r@.len() implies {
                    &&& (#[trigger] r@[i]).1 == TargetStatus::Online
                    &&& cluster.is_real(r@[i].0@)
                    &&& !db.holds_target(r@[i].0@)
                    &&& exists|k: int| 0 <= k < statuses@.len() && statuses@[k].name@ == r@[i].0@
                } by {
                    if i < before.len() {
                        assert(r@[i] == before[i]);
                    } else {
                        assert(statuses@[j as int].name@ == r@[i].0@);
                    }
                }
            }
        }
        j = j + 1;
    }
    proof {
        reveal(nodes_ok);
    }
    r
}

/// The title of the issue that says the scheduler did not report a node.
pub open spec fn missing_title() -> Seq<char> {
    "Node not found in pbs"@
}

/// What handling the node `name`, stored `old_state`, with result `f`, did
/// to the targets: only targets named `name` changed or were added, and a
/// changed final state of a real node was stored, identifiers permitting.
#[verifier::opaque]
pub open spec fn step_targets(
    db0: &Store,
    db1: &Store,
    name: Seq<char>,
    old_state: TargetStatus,
    f: Option<TargetStatus>,
    cluster: &Topology,
) -> bool {
    &&& forall|t: int|
        0 <= t < db0.targets@.len() ==> #[trigger] db1.targets@[t] == db0.targets@[t] || (
        db1.targets@[t].name@ == name && f == Some(db1.targets@[t].status))
    &&& forall|t: int|
        db0.targets@.len() <= t < db1.targets@.len() ==> (#[trigger] db1.targets@[t]).name@ == name
            && cluster.is_real(name)
    &&& match f {
        Some(g) => g != old_state && cluster.is_real(name) && (db0.holds_target(name)
            || db0.next_target_id < i32::MAX) ==> exists|t: int|
            0 <= t < db1.targets@.len() && #[trigger] db1.targets@[t].name@ == name
                && db1.targets@[t].status == g,
        None => true,
    }
}

/// Identifiers are left for an issue and for a target.
pub open spec fn ids_left(db: &Store) -> bool {
    db.next_issue_id < i32::MAX && db.next_target_id < i32::MAX
}

/// Issue `i` is open on `n`, without offline scope, titled and described
/// by `comment`, opened by `ctt` at `now`.
pub open spec fn opened_as(db: &Store, i: int, n: Seq<char>, comment: Seq<char>, now: i64) -> bool {
    &&& db.open_on(i, n)
    &&& db.issues@[i].to_offline is None
    &&& db.issues@[i].title@ == comment
    &&& db.issues@[i].description@ == comment
    &&& db.issues@[i].created_by@ == "ctt"@
    &&& db.issues@[i].created_at == now
}

/// No issue is open on `n`.
pub open spec fn no_open_on(db: &Store, n: Seq<char>) -> bool {
    forall|i: int| !#[trigger] db.open_on(i, n)
}

/// `acts` tells that `ctt` opened an issue titled `title` on `n`.
pub open spec fn notified_opened(acts: Seq<Action>, n: Seq<char>, title: Seq<char>) -> bool {
    exists|j: int|
        0 <= j < acts.len() && (#[trigger] acts[j] matches Action::Notify(
            Notice::IssueOpened { operator: o, target: t, title: ti },
        ) && o@ == "ctt"@ && t@ == n && ti@ == title)
}

/// `acts` tells that the open issues of `n` were closed.
pub open spec fn notified_closed(acts: Seq<Action>, n: Seq<char>) -> bool {
    exists|j: int|
        0 <= j < acts.len() && (#[trigger] acts[j] matches Action::Notify(
            Notice::IssuesClosed { target: t },
        ) && t@ == n)
}

/// `acts` takes `n` offline with the reason for its desired status in
/// `db`, and tells so.
pub open spec fn commanded_offline(acts: Seq<Action>, db: &Store, topo: &Topology, n: Seq<char>) -> bool {
    &&& exists|j: int|
        0 <= j < acts.len() && (#[trigger] acts[j] matches Action::Command(
            Command::Offline { target: t, comment: c },
        ) && t@ == n && explains(db, topo, n, c@))
    &&& exists|j: int|
        0 <= j < acts.len() && (#[trigger] acts[j] matches Action::Notify(
            Notice::NodeOffline { target: t },
        ) && t@ == n)
}

/// What the transition of `n`, observed `observed` with the scheduler
/// comment `comment` against the records `db0`, has left in `db` and
/// `acts`: the issue it opened (identifiers permitting), no open issue
/// once it closed them (comment identifiers permitting), the offline
/// command and notices, and the issues of `n` untouched otherwise.
pub open spec fn reported_done(
    db0: &Store,
    db: &Store,
    acts: Seq<Action>,
    topo: &Topology,
    n: Seq<char>,
    observed: TargetStatus,
    comment: Seq<char>,
    now: i64,
) -> bool {
    let e = effect_of(db0, topo, n, observed);
    &&& e == Effect::OpenIssue && ids_left(db) ==> (exists|i: int|
        db0.issues@.len() <= i && #[trigger] opened_as(db, i, n, comment, now)) && notified_opened(
        acts,
        n,
        comment,
    )
    &&& e == Effect::CloseIssues && comment_room(db) ==> no_open_on(db, n) && notified_closed(acts, n)
    &&& e == Effect::OfflineNode ==> commanded_offline(acts, db0, topo, n)
    &&& e == Effect::Nothing || e == Effect::OfflineNode ==> issues_on_kept(db0, db, n)
}

/// What the pass has left for a stored node `n` the scheduler did not
/// report: an open issue titled `missing_title` on a real node
/// (identifiers permitting), and no new issue on it when one was open.
pub open spec fn missing_done(db0: &Store, db: &Store, topo: &Topology, n: Seq<char>) -> bool {
    &&& topo.is_real(n) && ids_left(db) ==> exists|i: int|
        #[trigger] db.open_on(i, n) && db.issues@[i].title@ == missing_title()
    &&& (exists|i: int| #[trigger] db0.open_on(i, n) && db0.issues@[i].title@ == missing_title())
        ==> issues_on_kept(db0, db, n)
}

/// What handling `name`, with result `r`, has left.
pub open spec fn step_done(
    db0: &Store,
    db: &Store,
    acts: Seq<Action>,
    topo: &Topology,
    name: Seq<char>,
    statuses: Seq<NodeStatus>,
    r: Option<TargetStatus>,
    now: i64,
) -> bool {
    match r {
        Some(f) => forall|j: int|
            #[trigger] first_status(statuses, name, j) ==> reported_done(
                db0,
                db,
                acts,
                topo,
                name,
                statuses[j].status,
                statuses[j].comment@,
                now,
            ),
        None => missing_done(db0, db, topo, name),
    }
}

/// Handles one followed node: runs its transition when the scheduler
/// reported it, else opens an issue saying it is missing unless one is
/// open already.
fn sync_one(
    name: &str,
    old_state: TargetStatus,
    statuses: &Vec<NodeStatus>,
    now: i64,
    db: &mut Store,
    cluster: &Topology,
    actions: &mut Vec<Action>,
) -> (r: Option<TargetStatus>)
    requires
        old(db).wf(),
        cluster.wf(),
        forall|j: int| 0 <= j < statuses@.len() ==> observable(#[trigger] statuses@[j].status),
        old(db).holds_target(name@) || exists|j: int|
            0 <= j < statuses@.len() && #[trigger] statuses@[j].name@ == name@,
    ensures
        final(db).wf(),
        targets_extended(old(db), final(db)),
        old(db).pending@.is_prefix_of(final(db).pending@),
        old(actions)@.is_prefix_of(final(actions)@),
        forall|x: Seq<char>, w: Want|
            x != name@ || w != Want::Any ==> has_open(final(db), x, w) == has_open(old(db), x, w),
        step_targets(old(db), final(db), name@, old_state, r, cluster),
        issues_grown(old(db), final(db)),
        forall|x: Seq<char>| x != name@ ==> #[trigger] issues_on_kept(old(db), final(db), x),
        step_done(old(db), final(db), final(actions)@, cluster, name@, statuses@, r, now),
        match r {
            Some(f) => exists|j: int|
                first_status(statuses@, name@, j) && f == final_state(
                    old(db),
                    cluster,
                    name@,
                    statuses@[j].status,
                ),
            None => forall|j: int| 0 <= j < statuses@.len() ==> (#[trigger] statuses@[j]).name@
                != name@,
        },
{
    let ghost db0 = *db;
    match find_status(statuses, name) {
        Some(j) => {
            let f = handle_transition(
                name,
                statuses[j].comment.as_str(),
                old_state,
                statuses[j].status,
                now,
                db,
                cluster,
                actions,
            );
            proof {
                let obs = statuses@[j as int].status;
                let cm = statuses@[j as int].comment@;
                lemma_handled_frame(&db0, db, cluster, name@, cm, obs, now);
                lemma_handled_kept(&db0, db, cluster, name@, cm, obs, now);
                reveal(step_targets);
                let e = effect_of(&db0, cluster, name@, obs);
                if e == Effect::OpenIssue && ids_left(db) {
                    assert(can_open(&db0, name@));
                    assert(opened_as(db, db0.issues@.len() as int, name@, cm, now));
                    assert(notified_opened(actions@, name@, cm)) by {
                        assert(actions@[actions@.len() - 1] == actions@.last());
                    }
                }
                if e == Effect::CloseIssues && comment_room(db) {
                    assert(comment_room(&db0));
                    let sel = choose|sel: Seq<usize>| issues_closed(&db0, db, name@, sel, now);
                    lemma_closed_unscoped(&db0, db, name@, sel, now);
                    assert forall|i: int| !#[trigger] db.open_on(i, name@) by {
                        if db.open_on(i, name@) {
                            assert(open_wanted(db, i, name@, Want::Any));
                        }
                    }
                    assert(notified_closed(actions@, name@)) by {
                        assert(actions@[actions@.len() - 1] == actions@.last());
                    }
                }
                if e == Effect::OfflineNode {
                    assert(commanded_offline(actions@, &db0, cluster, name@)) by {
                        assert(actions@[actions@.len() - 1] == actions@.last());
                        assert(actions@[old(actions)@.len() as int] == actions@[old(actions)@.len() as int]);
                    }
                }
                assert forall|j2: int| #[trigger] first_status(statuses@, name@, j2) implies j2 == j by {
                    if j2 < j {
                        assert(statuses@[j2].name@ != name@);
                    } else if j2 > j {
                        assert(statuses@[j as int].name@ != name@);
                    }
                }
                assert(reported_done(&db0, db, actions@, cluster, name@, obs, cm, now));
            }
            Some(f)
        },
        None => {
            let found = issue::Entity::already_open(name, "Node not found in pbs", db);
            if found.is_none() {
                let opened = issue_open(
                    name,
                    "Node not found in pbs",
                    "Node not found in pbs",
                    None,
                    "ctt",
                    now,
                    db,
                    cluster,
                    actions,
                );
                proof {
                    if let Some(k) = opened {
                        lemma_added_unscoped(&db0, db, name@, k as int, missing_title(), missing_title());
                        lemma_added_kept(&db0, db, name@, k as int, None, missing_title(), missing_title());
                        assert(db.open_on(k as int, name@));
                    } else {
                        lemma_same_kept(&db0, db);
                    }
                    if cluster.is_real(name@) && ids_left(db) {
                        assert(can_open(&db0, name@));
                    }
                }
            }
            proof {
                assert(db0.pending@.is_prefix_of(db.pending@)) by {
                    if found.is_some() {
                        assert(db.pending@.subrange(0, db0.pending@.len() as int) =~= db0.pending@);
                    }
                }
                if found.is_some() {
                    assert(actions@.subrange(0, old(actions)@.len() as int) =~= old(actions)@);
                    lemma_same_kept(&db0, db);
                    let k = found.unwrap();
                    assert(db.open_on(k as int, name@));
                }
                assert(missing_done(&db0, db, cluster, name@));
                reveal(step_targets);
            }
            None
        },
    }
}

/// What a pass did with one followed node.
pub struct Outcome {
    pub name: String,
    /// The stored status when the pass began; `Online` for a node first
    /// seen in it.
    pub old_state: TargetStatus,
    /// The final state; `None` when the scheduler did not report the node.
    pub final_state: Option<TargetStatus>,
}

/// `j` is the first report of the node named `name`.
pub open spec fn first_report(reports: Seq<NodeReport>, name: Seq<char>, j: int) -> bool {
    &&& 0 <= j < reports.len()
    &&& reports[j].name@ == name
    &&& forall|k: int| 0 <= k < j ==> (#[trigger] reports[k]).name@ != name
}

/// The final state the pass gives the node named `name`, from its first
/// report `j`.
pub open spec fn reported_final(
    db: &Store,
    topo: &Topology,
    reports: Seq<NodeReport>,
    name: Seq<char>,
    f: Option<TargetStatus>,
) -> bool {
    match f {
        Some(f) => exists|j: int|
            first_report(reports, name, j) && f == final_state(
                db,
                topo,
                name,
                interpreted(reports[j].state@, reports[j].jobs),
            ),
        None => forall|j: int| 0 <= j < reports.len() ==> (#[trigger] reports[j]).name@ != name,
    }
}

/// No lookup differs between `db` and `db0` but those of every open issue
/// on the names in `done`.
#[verifier::opaque]
pub open spec fn untouched(db: &Store, db0: &Store, done: Seq<Seq<char>>) -> bool {
    forall|x: Seq<char>, w: Want|
        (w != Want::Any || !done.contains(x)) ==> #[trigger] has_open(db, x, w) == has_open(db0, x, w)
}

/// Handling `name` keeps `untouched` with `name` added to `done`.
proof fn lemma_untouched_step(db0: &Store, dbi: &Store, db1: &Store, done: Seq<Seq<char>>, name: Seq<char>)
    requires
        untouched(dbi, db0, done),
        forall|x: Seq<char>, w: Want|
            x != name || w != Want::Any ==> has_open(db1, x, w) == has_open(dbi, x, w),
    ensures
        untouched(db1, db0, done.push(name)),
{
    reveal(untouched);
    assert forall|x: Seq<char>, w: Want|
        (w != Want::Any || !done.push(name).contains(x)) implies #[trigger] has_open(db1, x, w)
        == has_open(db0, x, w) by {
        if w == Want::Any {
            assert(x != name) by {
                assert(done.push(name)[done.len() as int] == name);
            }
            assert(!done.contains(x)) by {
                if done.contains(x) {
                    let k = choose|k: int| 0 <= k < done.len() && done[k] == x;
                    assert(done.push(name)[k] == x);
                }
            }
        }
        assert(has_open(dbi, x, w) == has_open(db0, x, w));
    }
}

/// A node not handled yet keeps the desired status it had when the pass
/// began.
proof fn lemma_untouched_desired(db0: &Store, db: &Store, done: Seq<Seq<char>>, topo: &Topology, name: Seq<char>)
    requires
        untouched(db, db0, done),
        !done.contains(name),
    ensures
        desired_status(db, topo, name) == desired_status(db0, topo, name),
{
    reveal(untouched);
    assert(has_open(db, name, Want::Any) == has_open(db0, name, Want::Any));
    assert forall|x: Seq<char>, w: Want| w != Want::Any implies has_open(db, x, w) == has_open(db0, x, w) by {
        assert(has_open(db, x, w) == has_open(db0, x, w));
    }
    lemma_desired_same_at(db0, db, topo, name);
}

/// The list of nodes a pass handles, as `pass_nodes` makes it.
#[verifier::opaque]
pub open spec fn nodes_ok(
    nodes: Seq<(String, TargetStatus)>,
    db: &Store,
    statuses: Seq<NodeStatus>,
    cluster: &Topology,
) -> bool {
    &&& nodes.len() >= db.targets@.len()
    &&& forall|i: int|
        0 <= i < db.targets@.len() ==> (#[trigger] nodes[i]).0@ == db.targets@[i].name@ && nodes[i].1
            == db.targets@[i].status
    &&& forall|i: int|
        db.targets@.len() <= i < nodes.len() ==> {
            &&& (#[trigger] nodes[i]).1 == TargetStatus::Online
            &&& cluster.is_real(nodes[i].0@)
            &&& !db.holds_target(nodes[i].0@)
            &&& exists|j: int| 0 <= j < statuses.len() && statuses[j].name@ == nodes[i].0@
        }
    &&& forall|j: int|
        0 <= j < statuses.len() && cluster.is_real(statuses[j].name@) && !db.holds_target(
            statuses[j].name@,
        ) ==> exists|i: int| 0 <= i < nodes.len() && (#[trigger] nodes[i]).0@ == statuses[j].name@
    &&& forall|a: int, b: int| 0 <= a < b < nodes.len() ==> (#[trigger] nodes[a]).0@ != (#[trigger] nodes[b]).0@
}

/// What the list of nodes of a pass says of its entry `i`.
proof fn lemma_nodes_entry(
    nodes: Seq<(String, TargetStatus)>,
    db: &Store,
    statuses: Seq<NodeStatus>,
    cluster: &Topology,
    i: int,
)
    requires
        nodes_ok(nodes, db, statuses, cluster),
        0 <= i < nodes.len(),
    ensures
        i < db.targets@.len() ==> nodes[i].0@ == db.targets@[i].name@,
        i >= db.targets@.len() ==> exists|j: int|
            0 <= j < statuses.len() && #[trigger] statuses[j].name@ == nodes[i].0@,
        forall|k: int| 0 <= k < i ==> (#[trigger] nodes[k]).0@ != nodes[i].0@,
{
    reveal(nodes_ok);
    if i >= db.targets@.len() {
        assert(nodes[i].1 == TargetStatus::Online);
        assert(exists|j: int| 0 <= j < statuses.len() && statuses[j].name@ == nodes[i].0@);
    }
    assert forall|k: int| 0 <= k < i implies (#[trigger] nodes[k]).0@ != nodes[i].0@ by {
        assert(nodes[k].0@ != nodes[i].0@);
    }
}

/// What the outcomes of a pass say, from the list of nodes it handled.
proof fn lemma_outcomes_final(
    out: Seq<Outcome>,
    nodes: Seq<(String, TargetStatus)>,
    db: &Store,
    statuses: Seq<NodeStatus>,
    reports: Seq<NodeReport>,
    cluster: &Topology,
)
    requires
        nodes_ok(nodes, db, statuses, cluster),
        statuses_match(statuses, reports),
        out.len() == nodes.len(),
        outcomes_so_far(out, nodes, db, cluster, reports, out.len() as int),
    ensures
        out.len() >= db.targets@.len(),
        forall|i: int|
            0 <= i < db.targets@.len() ==> (#[trigger] out[i]).name@ == db.targets@[i].name@
                && out[i].old_state == db.targets@[i].status,
        forall|i: int|
            db.targets@.len() <= i < out.len() ==> {
                &&& (#[trigger] out[i]).old_state == TargetStatus::Online
                &&& cluster.is_real(out[i].name@)
                &&& !db.holds_target(out[i].name@)
            },
        forall|j: int|
            0 <= j < reports.len() && cluster.is_real(reports[j].name@) && !db.holds_target(
                reports[j].name@,
            ) ==> exists|i: int| 0 <= i < out.len() && (#[trigger] out[i]).name@ == reports[j].name@,
        forall|a: int, b: int|
            0 <= a < b < out.len() ==> (#[trigger] out[a]).name@ != (#[trigger] out[b]).name@,
        forall|i: int|
            0 <= i < out.len() ==> reported_final(
                db,
                cluster,
                reports,
                (#[trigger] out[i]).name@,
                out[i].final_state,
            ),
{
    reveal(nodes_ok);
    reveal(statuses_match);
    reveal(outcomes_so_far);
    assert forall|j: int|
        0 <= j < reports.len() && cluster.is_real(reports[j].name@) && !db.holds_target(
            reports[j].name@,
        ) implies exists|i: int| 0 <= i < out.len() && (#[trigger] out[i]).name@ == reports[j].name@ by {
        assert(statuses[j].name == reports[j].name);
        let k = choose|k: int| 0 <= k < nodes.len() && (#[trigger] nodes[k]).0@ == statuses[j].name@;
        assert(out[k].name@ == reports[j].name@);
    }
    assert forall|a: int, b: int|
        0 <= a < b < out.len() implies (#[trigger] out[a]).name@ != (#[trigger] out[b]).name@ by {
        assert(nodes[a].0@ != nodes[b].0@);
    }
}

/// What a whole pass stored, from `stored_so_far` at its end.
proof fn lemma_stored_final(
    db: &Store,
    db0: &Store,
    out: Seq<Outcome>,
    nodes: Seq<(String, TargetStatus)>,
    statuses: Seq<NodeStatus>,
    cluster: &Topology,
    reports: Seq<NodeReport>,
)
    requires
        stored_so_far(db, db0, out, cluster, out.len() as int),
        nodes_ok(nodes, db0, statuses, cluster),
        outcomes_so_far(out, nodes, db0, cluster, reports, out.len() as int),
        out.len() == nodes.len(),
    ensures
        forall|i: int|
            0 <= i < out.len() ==> match (#[trigger] out[i]).final_state {
                Some(f) => f != out[i].old_state && cluster.is_real(out[i].name@) && (
                db0.holds_target(out[i].name@) || db.next_target_id < i32::MAX) ==> exists|t: int|
                    0 <= t < db.targets@.len() && #[trigger] db.targets@[t].name@ == out[i].name@
                        && db.targets@[t].status == f,
                None => true,
            },
        forall|t: int|
            0 <= t < db0.targets@.len() && (forall|j: int|
                0 <= j < reports.len() ==> (#[trigger] reports[j]).name@ != db0.targets@[t].name@)
                ==> #[trigger] db.targets@[t] == db0.targets@[t],
{
    reveal(stored_so_far);
    reveal(nodes_ok);
    reveal(outcomes_so_far);
    assert forall|t: int|
        0 <= t < db0.targets@.len() && (forall|j: int|
            0 <= j < reports.len() ==> (#[trigger] reports[j]).name@ != db0.targets@[t].name@)
            implies #[trigger] db.targets@[t] == db0.targets@[t] by {
        assert(out[t].name@ == db0.targets@[t].name@);
        assert(reported_final(db0, cluster, reports, out[t].name@, out[t].final_state));
        if let Some(f) = out[t].final_state {
            let j = choose|j: int|
                first_report(reports, out[t].name@, j) && f == final_state(
                    db0,
                    cluster,
                    out[t].name@,
                    interpreted(reports[j].state@, reports[j].jobs),
                );
            assert(reports[j].name@ == db0.targets@[t].name@);
        }
    }
}

/// What the pass has left, in `db` and `acts`, for the outcome `o` of
/// the node at position `k` of the pass (a stored target when `k` is below
/// the number of stored targets), against the records `db0` it began with:
/// a reported, real, stored node has its final state stored; a reported
/// node's transition has had its effects; a stored node not reported has
/// its `missing_title` issue.
#[verifier::opaque]
pub open spec fn settled(
    db0: &Store,
    db: &Store,
    acts: Seq<Action>,
    topo: &Topology,
    reports: Seq<NodeReport>,
    now: i64,
    o: Outcome,
    k: int,
) -> bool {
    &&& 0 <= k < db0.targets@.len() && topo.is_real(o.name@) && o.final_state is Some
        ==> o.final_state == Some(db.targets@[k].status)
    &&& match o.final_state {
        Some(f) => exists|j: int|
            #[trigger] first_report(reports, o.name@, j) && reported_done(
                db0,
                db,
                acts,
                topo,
                o.name@,
                interpreted(reports[j].state@, reports[j].jobs),
                reports[j].comment@,
                now,
            ),
        None => 0 <= k < db0.targets@.len() ==> missing_done(db0, db, topo, o.name@),
    }
}

/// Every outcome so far is `settled`.
#[verifier::opaque]
pub open spec fn all_settled(
    db0: &Store,
    db: &Store,
    acts: Seq<Action>,
    topo: &Topology,
    reports: Seq<NodeReport>,
    now: i64,
    out: Seq<Outcome>,
) -> bool {
    forall|k: int| 0 <= k < out.len() ==> settled(db0, db, acts, topo, reports, now, #[trigger] out[k], k)
}

/// The issues of every name not handled yet are as they were.
#[verifier::opaque]
pub open spec fn kept_unhandled(db: &Store, db0: &Store, done: Seq<Seq<char>>) -> bool {
    forall|x: Seq<char>| !done.contains(x) ==> #[trigger] issues_on_kept(db0, db, x)
}

/// An element of a prefix is an element of the whole.
proof fn lemma_prefix_index(a: Seq<Action>, b: Seq<Action>, j: int)
    requires
        a.is_prefix_of(b),
        0 <= j < a.len(),
    ensures
        b[j] == a[j],
{
    assert(b.subrange(0, a.len() as int)[j] == b[j]);
}

/// Settled facts of `o` survive the handling of another node `m`.
#[verifier::rlimit(50)]
proof fn lemma_settled_keep(
    db0: &Store,
    dbi: &Store,
    db1: &Store,
    acts0: Seq<Action>,
    acts1: Seq<Action>,
    topo: &Topology,
    reports: Seq<NodeReport>,
    now: i64,
    o: Outcome,
    k: int,
    m: Seq<char>,
    old_m: TargetStatus,
    f_m: Option<TargetStatus>,
)
    requires
        db0.wf(),
        dbi.wf(),
        targets_extended(db0, dbi),
        targets_extended(dbi, db1),
        issues_grown(db0, dbi),
        issues_grown(dbi, db1),
        issues_on_kept(dbi, db1, o.name@),
        o.name@ != m,
        step_targets(dbi, db1, m, old_m, f_m, topo),
        0 <= k < db0.targets@.len() ==> dbi.targets@[k].name@ == o.name@,
        acts0.is_prefix_of(acts1),
        settled(db0, dbi, acts0, topo, reports, now, o, k),
    ensures
        settled(db0, db1, acts1, topo, reports, now, o, k),
{
    reveal(step_targets);
    reveal(settled);
    let n = o.name@;
    if 0 <= k < db0.targets@.len() {
        assert(db1.targets@[k].name@ == dbi.targets@[k].name@);
        assert(db1.targets@[k] == dbi.targets@[k]);
    }
    lemma_kept_trans(dbi, dbi, db1, n);
    assert forall|i: int| #[trigger] dbi.open_on(i, n) implies db1.open_on(i, n) && db1.issues@[i] == dbi.issues@[i] by {
        lemma_grown_issue_on(dbi, db1, i, n);
    }
    assert(no_open_on(dbi, n) ==> no_open_on(db1, n)) by {
        if no_open_on(dbi, n) {
            assert forall|i: int| !#[trigger] db1.open_on(i, n) by {
                if db1.open_on(i, n) && i < dbi.issues@.len() {
                    lemma_grown_issue_on(dbi, db1, i, n);
                    assert(dbi.open_on(i, n));
                }
            }
        }
    }
    assert forall|j: int| 0 <= j < acts0.len() implies #[trigger] acts1[j] == acts0[j] by {
        lemma_prefix_index(acts0, acts1, j);
    }
    if notified_closed(acts0, n) {
        let j = choose|j: int| 0 <= j < acts0.len() && (#[trigger] acts0[j] matches Action::Notify(
            Notice::IssuesClosed { target: t },
        ) && t@ == n);
        assert(acts1[j] == acts0[j]);
    }
    if commanded_offline(acts0, db0, topo, n) {
        let j = choose|j: int| 0 <= j < acts0.len() && (#[trigger] acts0[j] matches Action::Command(
            Command::Offline { target: t, comment: c },
        ) && t@ == n && explains(db0, topo, n, c@));
        assert(acts1[j] == acts0[j]);
        let j2 = choose|j: int| 0 <= j < acts0.len() && (#[trigger] acts0[j] matches Action::Notify(
            Notice::NodeOffline { target: t },
        ) && t@ == n);
        assert(acts1[j2] == acts0[j2]);
    }
    assert(issues_on_kept(db0, dbi, n) ==> issues_on_kept(db0, db1, n)) by {
        if issues_on_kept(db0, dbi, n) {
            lemma_kept_trans(db0, dbi, db1, n);
        }
    }
    if o.final_state is Some {
        let j = choose|j: int|
            #[trigger] first_report(reports, n, j) && reported_done(
                db0,
                dbi,
                acts0,
                topo,
                n,
                interpreted(reports[j].state@, reports[j].jobs),
                reports[j].comment@,
                now,
            );
        let c = reports[j].comment@;
        if exists|i: int| db0.issues@.len() <= i && #[trigger] opened_as(dbi, i, n, c, now) {
            let i = choose|i: int| db0.issues@.len() <= i && #[trigger] opened_as(dbi, i, n, c, now);
            assert(opened_as(db1, i, n, c, now));
        }
        if notified_opened(acts0, n, c) {
            let j1 = choose|j: int| 0 <= j < acts0.len() && (#[trigger] acts0[j] matches Action::Notify(
                Notice::IssueOpened { operator: o, target: t, title: ti },
            ) && o@ == "ctt"@ && t@ == n && ti@ == c);
            assert(acts1[j1] == acts0[j1]);
        }
        assert(reported_done(
            db0,
            db1,
            acts1,
            topo,
            n,
            interpreted(reports[j].state@, reports[j].jobs),
            c,
            now,
        ));
    }
    if exists|i: int| #[trigger] dbi.open_on(i, n) && dbi.issues@[i].title@ == missing_title() {
        let i = choose|i: int| #[trigger] dbi.open_on(i, n) && dbi.issues@[i].title@ == missing_title();
        assert(db1.open_on(i, n));
    }
}

/// Lookups other than those of every open issue on some node are as the
/// pass began.
proof fn lemma_untouched_scoped(db: &Store, db0: &Store, done: Seq<Seq<char>>)
    requires
        untouched(db, db0, done),
    ensures
        forall|x: Seq<char>, w: Want| w != Want::Any ==> has_open(db, x, w) == has_open(db0, x, w),
{
    reveal(untouched);
    assert forall|x: Seq<char>, w: Want| w != Want::Any implies has_open(db, x, w) == has_open(db0, x, w) by {
        assert(has_open(db, x, w) == has_open(db0, x, w));
    }
}

/// The issues of a name not handled yet are as the pass began.
proof fn lemma_kept_unhandled_at(db: &Store, db0: &Store, done: Seq<Seq<char>>, n: Seq<char>)
    requires
        kept_unhandled(db, db0, done),
        !done.contains(n),
    ensures
        issues_on_kept(db0, db, n),
{
    reveal(kept_unhandled);
}

/// Handling `n` keeps `kept_unhandled`, with `n` added to `done`.
proof fn lemma_kept_unhandled_step(db0: &Store, dbi: &Store, db1: &Store, done: Seq<Seq<char>>, n: Seq<char>)
    requires
        db0.wf(),
        dbi.wf(),
        targets_extended(db0, dbi),
        targets_extended(dbi, db1),
        issues_grown(db0, dbi),
        issues_grown(dbi, db1),
        kept_unhandled(dbi, db0, done),
        forall|x: Seq<char>| x != n ==> #[trigger] issues_on_kept(dbi, db1, x),
    ensures
        kept_unhandled(db1, db0, done.push(n)),
{
    reveal(kept_unhandled);
    assert forall|x: Seq<char>| !done.push(n).contains(x) implies #[trigger] issues_on_kept(db0, db1, x) by {
        assert(x != n) by {
            assert(done.push(n)[done.len() as int] == n);
        }
        assert(!done.contains(x)) by {
            if done.contains(x) {
                let k = choose|k: int| 0 <= k < done.len() && done[k] == x;
                assert(done.push(n)[k] == x);
            }
        }
        assert(issues_on_kept(db0, dbi, x));
        assert(issues_on_kept(dbi, db1, x));
        lemma_kept_trans(db0, dbi, db1, x);
    }
}

/// The handling of `o`'s own node leaves it `settled`.
#[verifier::rlimit(50)]
proof fn lemma_settled_new(
    db0: &Store,
    dbi: &Store,
    db1: &Store,
    acts1: Seq<Action>,
    topo: &Topology,
    reports: Seq<NodeReport>,
    statuses: Seq<NodeStatus>,
    now: i64,
    o: Outcome,
    k: int,
)
    requires
        db0.wf(),
        dbi.wf(),
        db1.wf(),
        targets_extended(db0, dbi),
        targets_extended(dbi, db1),
        issues_grown(db0, dbi),
        issues_grown(dbi, db1),
        issues_on_kept(db0, dbi, o.name@),
        forall|x: Seq<char>, w: Want| w != Want::Any ==> has_open(dbi, x, w) == has_open(db0, x, w),
        desired_status(dbi, topo, o.name@) == desired_status(db0, topo, o.name@),
        step_done(dbi, db1, acts1, topo, o.name@, statuses, o.final_state, now),
        step_targets(dbi, db1, o.name@, o.old_state, o.final_state, topo),
        statuses_match(statuses, reports),
        reported_final(db0, topo, reports, o.name@, o.final_state),
        0 <= k < db0.targets@.len() ==> dbi.targets@[k] == db0.targets@[k] && db0.targets@[k].name@
            == o.name@ && db0.targets@[k].status == o.old_state,
    ensures
        settled(db0, db1, acts1, topo, reports, now, o, k),
{
    reveal(step_targets);
    reveal(statuses_match);
    reveal(settled);
    let n = o.name@;
    if 0 <= k < db0.targets@.len() && topo.is_real(n) && o.final_state is Some {
        assert(db1.targets@[k].name@ == n);
        assert(dbi.holds_target(n)) by {
            assert(dbi.targets@[k].name@ == n);
        }
        if db1.targets@[k] == dbi.targets@[k] && o.final_state != Some(o.old_state) {
            let t = choose|t: int|
                0 <= t < db1.targets@.len() && #[trigger] db1.targets@[t].name@ == n
                    && db1.targets@[t].status == o.final_state->0;
            if t < k {
                assert(db1.targets@[t].name@ != db1.targets@[k].name@);
            } else if t > k {
                assert(db1.targets@[k].name@ != db1.targets@[t].name@);
            }
        }
    }
    match o.final_state {
        Some(g) => {
            let j = choose|j: int|
                first_report(reports, n, j) && g == final_state(
                    db0,
                    topo,
                    n,
                    interpreted(reports[j].state@, reports[j].jobs),
                );
            assert(first_status(statuses, n, j)) by {
                assert forall|q: int| 0 <= q < j implies (#[trigger] statuses[q]).name@ != n by {
                    assert(statuses[q].name == reports[q].name);
                }
                assert(statuses[j].name == reports[j].name);
            }
            let obs = interpreted(reports[j].state@, reports[j].jobs);
            let c = reports[j].comment@;
            assert(statuses[j].status == obs && statuses[j].comment@ == c);
            assert(reported_done(dbi, db1, acts1, topo, n, obs, c, now));
            let e = effect_of(db0, topo, n, obs);
            if e == Effect::OfflineNode {
                let j1 = choose|j1: int| 0 <= j1 < acts1.len() && (#[trigger] acts1[j1] matches Action::Command(
                    Command::Offline { target: t, comment: cm },
                ) && t@ == n && explains(dbi, topo, n, cm@));
                if let Action::Command(Command::Offline { target: _, comment: cm }) = acts1[j1] {
                    lemma_explains_same(db0, dbi, topo, n, cm@);
                }
            }
            if e == Effect::Nothing || e == Effect::OfflineNode {
                lemma_kept_trans(db0, dbi, db1, n);
            }
            assert(reported_done(db0, db1, acts1, topo, n, obs, c, now));
        },
        None => {
            if 0 <= k < db0.targets@.len() {
                if exists|i: int| #[trigger] db0.open_on(i, n) && db0.issues@[i].title@ == missing_title() {
                    let i = choose|i: int| #[trigger] db0.open_on(i, n) && db0.issues@[i].title@ == missing_title();
                    lemma_grown_issue_on(db0, dbi, i, n);
                    assert(dbi.open_on(i, n));
                    lemma_kept_trans(db0, dbi, db1, n);
                }
            }
        },
    }
}

/// Handling a further node keeps every outcome so far `settled`.
proof fn lemma_all_settled_step(
    db0: &Store,
    dbi: &Store,
    db1: &Store,
    acts0: Seq<Action>,
    acts1: Seq<Action>,
    topo: &Topology,
    reports: Seq<NodeReport>,
    now: i64,
    out0: Seq<Outcome>,
    out1: Seq<Outcome>,
    m: Seq<char>,
    old_m: TargetStatus,
    f_m: Option<TargetStatus>,
)
    requires
        db0.wf(),
        dbi.wf(),
        targets_extended(db0, dbi),
        targets_extended(dbi, db1),
        issues_grown(db0, dbi),
        issues_grown(dbi, db1),
        all_settled(db0, dbi, acts0, topo, reports, now, out0),
        out1.len() == out0.len() + 1,
        forall|k: int| 0 <= k < out0.len() ==> out1[k] == out0[k],
        forall|k: int| 0 <= k < out0.len() ==> (#[trigger] out0[k]).name@ != m,
        forall|k: int| 0 <= k < out0.len() && k < db0.targets@.len() ==> dbi.targets@[k].name@ == (#[trigger] out0[k]).name@,
        forall|x: Seq<char>| x != m ==> #[trigger] issues_on_kept(dbi, db1, x),
        step_targets(dbi, db1, m, old_m, f_m, topo),
        acts0.is_prefix_of(acts1),
        settled(db0, db1, acts1, topo, reports, now, out1[out0.len() as int], out0.len() as int),
    ensures
        all_settled(db0, db1, acts1, topo, reports, now, out1),
{
    reveal(all_settled);
    assert forall|k: int| 0 <= k < out1.len() implies settled(db0, db1, acts1, topo, reports, now, #[trigger] out1[k], k) by {
        if k < out0.len() {
            assert(out1[k] == out0[k]);
            assert(settled(db0, dbi, acts0, topo, reports, now, out0[k], k));
            assert(issues_on_kept(dbi, db1, out0[k].name@));
            lemma_settled_keep(db0, dbi, db1, acts0, acts1, topo, reports, now, out0[k], k, m, old_m, f_m);
        }
    }
}

/// The first `i` outcomes are those of the first `i` nodes, each with the
/// final state its first report gives.
#[verifier::opaque]
pub open spec fn outcomes_so_far(
    out: Seq<Outcome>,
    nodes: Seq<(String, TargetStatus)>,
    db0: &Store,
    cluster: &Topology,
    reports: Seq<NodeReport>,
    i: int,
) -> bool {
    &&& out.len() == i
    &&& forall|k: int|
        0 <= k < i ==> {
            &&& (#[trigger] out[k]).name@ == nodes[k].0@
            &&& out[k].old_state == nodes[k].1
            &&& reported_final(db0, cluster, reports, out[k].name@, out[k].final_state)
        }
}

/// Recording the outcome of the node at `i` keeps `outcomes_so_far`.
proof fn lemma_outcomes_step(
    out0: Seq<Outcome>,
    out1: Seq<Outcome>,
    nodes: Seq<(String, TargetStatus)>,
    db0: &Store,
    cluster: &Topology,
    reports: Seq<NodeReport>,
    i: int,
)
    requires
        outcomes_so_far(out0, nodes, db0, cluster, reports, i),
        0 <= i < nodes.len(),
        out1.len() == i + 1,
        out1.subrange(0, i) == out0,
        out1[i].name@ == nodes[i].0@,
        out1[i].old_state == nodes[i].1,
        reported_final(db0, cluster, reports, out1[i].name@, out1[i].final_state),
    ensures
        outcomes_so_far(out1, nodes, db0, cluster, reports, i + 1),
{
    reveal(outcomes_so_far);
    assert forall|k: int| 0 <= k < i implies out1[k] == out0[k] by {
        assert(out1.subrange(0, i)[k] == out1[k]);
    }
}

/// The statuses interpret the reports, one for one.
#[verifier::opaque]
pub open spec fn statuses_match(statuses: Seq<NodeStatus>, reports: Seq<NodeReport>) -> bool {
    &&& statuses.len() == reports.len()
    &&& forall|j: int|
        0 <= j < reports.len() ==> {
            &&& (#[trigger] statuses[j]).name == reports[j].name
            &&& statuses[j].status == interpreted(reports[j].state@, reports[j].jobs)
            &&& statuses[j].comment == reports[j].comment
        }
}

/// A changed final state of a real node is stored for every node handled so
/// far, identifiers permitting; a stored target whose node is not handled
/// yet, or was not reported, is as it was.
#[verifier::opaque]
pub open spec fn stored_so_far(
    db: &Store,
    db0: &Store,
    out: Seq<Outcome>,
    cluster: &Topology,
    i: int,
) -> bool {
    &&& forall|k: int|
        0 <= k < i ==> match (#[trigger] out[k]).final_state {
            Some(f) => f != out[k].old_state && cluster.is_real(out[k].name@) && (db0.holds_target(
                out[k].name@,
            ) || db.next_target_id < i32::MAX) ==> exists|t: int|
                0 <= t < db.targets@.len() && #[trigger] db.targets@[t].name@ == out[k].name@
                    && db.targets@[t].status == f,
            None => true,
        }
    &&& forall|t: int|
        0 <= t < db0.targets@.len() && (t >= i || out[t].final_state is None) ==> #[trigger] db.targets@[t]
            == db0.targets@[t]
    &&& forall|t: int|
        db0.targets@.len() <= t < db.targets@.len() ==> cluster.is_real(#[trigger] db.targets@[t].name@)
            && exists|k: int| 0 <= k < i && out[k].name@ == db.targets@[t].name@
}

/// Handling the node at `i` keeps `stored_so_far`, one node further.
#[verifier::rlimit(50)]
proof fn lemma_stored_step(
    db0: &Store,
    dbi: &Store,
    db1: &Store,
    nodes: Seq<(String, TargetStatus)>,
    reports: Seq<NodeReport>,
    out: Seq<Outcome>,
    out1: Seq<Outcome>,
    cluster: &Topology,
    i: int,
    f: Option<TargetStatus>,
)
    requires
        db0.wf(),
        dbi.wf(),
        0 <= i < nodes.len(),
        forall|k: int| 0 <= k < nodes.len() && k != i ==> (#[trigger] nodes[k]).0@ != nodes[i].0@,
        forall|t: int| 0 <= t < db0.targets@.len() ==> (#[trigger] nodes[t]).0@ == db0.targets@[t].name@,
        outcomes_so_far(out, nodes, db0, cluster, reports, i),
        stored_so_far(dbi, db0, out, cluster, i),
        targets_extended(db0, dbi),
        targets_extended(dbi, db1),
        step_targets(dbi, db1, nodes[i].0@, nodes[i].1, f, cluster),
        out1 == out.push(Outcome { name: out1[i].name, old_state: nodes[i].1, final_state: f }),
        out1[i].name@ == nodes[i].0@,
    ensures
        stored_so_far(db1, db0, out1, cluster, i + 1),
{
    reveal(stored_so_far);
    reveal(step_targets);
    reveal(outcomes_so_far);
    let n = nodes[i].0@;
    assert forall|k: int| 0 <= k < i + 1 implies match (#[trigger] out1[k]).final_state {
        Some(g) => g != out1[k].old_state && cluster.is_real(out1[k].name@) && (db0.holds_target(
            out1[k].name@,
        ) || db1.next_target_id < i32::MAX) ==> exists|t: int|
            0 <= t < db1.targets@.len() && #[trigger] db1.targets@[t].name@ == out1[k].name@
                && db1.targets@[t].status == g,
        None => true,
    } by {
        if k < i {
            assert(out1[k] == out[k]);
            assert(nodes[k].0@ != n);
            if let Some(g) = out[k].final_state {
                if g != out[k].old_state && cluster.is_real(out[k].name@) && (db0.holds_target(
                    out[k].name@,
                ) || db1.next_target_id < i32::MAX) {
                    let t = choose|t: int|
                        0 <= t < dbi.targets@.len() && #[trigger] dbi.targets@[t].name@ == out[k].name@
                            && dbi.targets@[t].status == g;
                    assert(db1.targets@[t].name@ == dbi.targets@[t].name@);
                    assert(db1.targets@[t] == dbi.targets@[t]);
                }
            }
        } else {
            if db0.holds_target(n) {
                let t = choose|t: int| 0 <= t < db0.targets@.len() && #[trigger] db0.targets@[t].name@ == n;
                assert(dbi.targets@[t].name@ == n);
            }
        }
    }
    assert forall|t: int|
        0 <= t < db0.targets@.len() && (t >= i + 1 || out1[t].final_state is None) implies #[trigger] db1.targets@[t]
        == db0.targets@[t] by {
        assert(dbi.targets@[t] == db0.targets@[t]) by {
            if t < i {
                assert(out1[t] == out[t]);
            }
        }
        assert(db1.targets@[t].name@ == dbi.targets@[t].name@);
        if t != i {
            assert(nodes[t].0@ != n);
        }
    }
    assert forall|t: int|
        db0.targets@.len() <= t < db1.targets@.len() implies cluster.is_real(#[trigger] db1.targets@[t].name@)
        && exists|k: int| 0 <= k < i + 1 && out1[k].name@ == db1.targets@[t].name@ by {
        if t < dbi.targets@.len() {
            assert(db1.targets@[t].name@ == dbi.targets@[t].name@);
            assert(cluster.is_real(dbi.targets@[t].name@));
            let k = choose|k: int| 0 <= k < i && out[k].name@ == dbi.targets@[t].name@;
            assert(out1[k] == out[k]);
        } else {
            assert(db1.targets@[t].name@ == n);
        }
    }
}

/// Node names in a pass are distinct, and stored targets come first, in
/// order.
proof fn lemma_nodes_distinct(
    nodes: Seq<(String, TargetStatus)>,
    db: &Store,
    statuses: Seq<NodeStatus>,
    cluster: &Topology,
    i: int,
)
    requires
        nodes_ok(nodes, db, statuses, cluster),
        0 <= i < nodes.len(),
    ensures
        forall|k: int| 0 <= k < nodes.len() && k != i ==> (#[trigger] nodes[k]).0@ != nodes[i].0@,
        forall|t: int| 0 <= t < db.targets@.len() ==> (#[trigger] nodes[t]).0@ == db.targets@[t].name@,
{
    reveal(nodes_ok);
    assert forall|k: int| 0 <= k < nodes.len() && k != i implies (#[trigger] nodes[k]).0@ != nodes[i].0@ by {
        if k < i {
            assert(nodes[k].0@ != nodes[i].0@);
        } else {
            assert(nodes[i].0@ != nodes[k].0@);
        }
    }
}

/// The outcome of a pass for the first status of `name` and result `f` of
/// its transition, stated over the reports.
proof fn lemma_outcome(
    db: &Store,
    topo: &Topology,
    statuses: Seq<NodeStatus>,
    reports: Seq<NodeReport>,
    name: Seq<char>,
    f: Option<TargetStatus>,
)
    requires
        statuses_match(statuses, reports),
        match f {
            Some(g) => exists|j: int|
                first_status(statuses, name, j) && g == final_state(db, topo, name, statuses[j].status),
            None => forall|j: int| 0 <= j < statuses.len() ==> (#[trigger] statuses[j]).name@ != name,
        },
    ensures
        reported_final(db, topo, reports, name, f),
{
    reveal(statuses_match);
    match f {
        Some(g) => {
            let j = choose|j: int|
                first_status(statuses, name, j) && g == final_state(db, topo, name, statuses[j].status);
            assert forall|k: int| 0 <= k < j implies (#[trigger] reports[k]).name@ != name by {
                assert(statuses[k].name == reports[k].name);
            }
            assert(first_report(reports, name, j));
        },
        None => {
            assert forall|j: int| 0 <= j < reports.len() implies (#[trigger] reports[j]).name@ != name by {
                assert(statuses[j].name == reports[j].name);
            }
        },
    }
}

/// Handles the node at `i` of a pass and records its outcome.
#[verifier::rlimit(50)]
fn pass_step(
    nodes: &Vec<(String, TargetStatus)>,
    i: usize,
    statuses: &Vec<NodeStatus>,
    now: i64,
    db: &mut Store,
    cluster: &Topology,
    actions: &mut Vec<Action>,
    out: &mut Vec<Outcome>,
    db0: Ghost<Store>,
    reports: Ghost<Seq<NodeReport>>,
    done: Ghost<Seq<Seq<char>>>,
)
    requires
        db0@.wf(),
        old(db).wf(),
        cluster.wf(),
        targets_extended(&db0@, old(db)),
        db0@.pending@.is_prefix_of(old(db).pending@),
        statuses_match(statuses@, reports@),
        forall|j: int| 0 <= j < statuses@.len() ==> observable(#[trigger] statuses@[j].status),
        nodes_ok(nodes@, &db0@, statuses@, cluster),
        i < nodes@.len(),
        old(out)@.len() == i,
        done@.len() == i,
        forall|k: int| 0 <= k < i ==> #[trigger] done@[k] == nodes@[k].0@,
        outcomes_so_far(old(out)@, nodes@, &db0@, cluster, reports@, i as int),
        untouched(old(db), &db0@, done@),
        stored_so_far(old(db), &db0@, old(out)@, cluster, i as int),
        issues_grown(&db0@, old(db)),
        kept_unhandled(old(db), &db0@, done@),
        all_settled(&db0@, old(db), old(actions)@, cluster, reports@, now, old(out)@),
    ensures
        final(db).wf(),
        targets_extended(&db0@, final(db)),
        db0@.pending@.is_prefix_of(final(db).pending@),
        old(actions)@.is_prefix_of(final(actions)@),
        final(out)@.len() == i + 1,
        outcomes_so_far(final(out)@, nodes@, &db0@, cluster, reports@, i + 1),
        untouched(final(db), &db0@, done@.push(nodes@[i as int].0@)),
        stored_so_far(final(db), &db0@, final(out)@, cluster, i + 1),
        issues_grown(&db0@, final(db)),
        kept_unhandled(final(db), &db0@, done@.push(nodes@[i as int].0@)),
        all_settled(&db0@, final(db), final(actions)@, cluster, reports@, now, final(out)@),
{
    let ghost db0 = db0@;
    let ghost done = done@;
    let ghost reports = reports@;
    let ghost n0 = db0.targets@.len();
    let name = nodes[i].0.as_str();
    let ghost dbi = *db;
    proof {
        lemma_nodes_entry(nodes@, &db0, statuses@, cluster, i as int);
        if (i as int) < n0 {
            assert(db.targets@[i as int].name@ == db0.targets@[i as int].name@);
            assert(db.holds_target(name@));
        }
        assert(!done.contains(name@)) by {
            if done.contains(name@) {
                let k = choose|k: int| 0 <= k < done.len() && done[k] == name@;
                assert(nodes@[k].0@ != nodes@[i as int].0@);
            }
        }
        lemma_untouched_desired(&db0, db, done, cluster, name@);
        lemma_untouched_scoped(db, &db0, done);
        lemma_kept_unhandled_at(db, &db0, done, name@);
    }
    let ghost acts0 = actions@;
    let f = sync_one(name, nodes[i].1, statuses, now, db, cluster, actions);
    proof {
        lemma_targets_extended_trans(&db0, &dbi, db);
        lemma_outcome(&db0, cluster, statuses@, reports, name@, f);
        lemma_untouched_step(&db0, &dbi, db, done, name@);
        lemma_kept_unhandled_step(&db0, &dbi, db, done, name@);
    }
    let ghost out0 = out@;
    out.push(Outcome { name: nodes[i].0.clone(), old_state: nodes[i].1, final_state: f });
    proof {
        assert(out@.subrange(0, i as int) =~= out0);
        lemma_outcomes_step(out0, out@, nodes@, &db0, cluster, reports, i as int);
        lemma_nodes_distinct(nodes@, &db0, statuses@, cluster, i as int);
        lemma_stored_step(&db0, &dbi, db, nodes@, reports, out0, out@, cluster, i as int, f);
        let o = out@[i as int];
        if (i as int) < n0 {
            assert(dbi.targets@[i as int] == db0.targets@[i as int]) by {
                reveal(stored_so_far);
            }
            reveal(nodes_ok);
        }
        lemma_settled_new(&db0, &dbi, db, actions@, cluster, reports, statuses@, now, o, i as int);
        reveal(outcomes_so_far);
        assert forall|k: int| 0 <= k < out0.len() implies (#[trigger] out0[k]).name@ != name@ by {
            assert(out0[k].name@ == nodes@[k].0@);
        }
        assert forall|k: int| 0 <= k < out0.len() && k < db0.targets@.len() implies dbi.targets@[k].name@
            == (#[trigger] out0[k]).name@ by {
            assert(out0[k].name@ == nodes@[k].0@);
        }
        lemma_all_settled_step(&db0, &dbi, db, acts0, actions@, cluster, reports, now, out0, out@, name@, nodes@[i as int].1, f);
    }
}

/// A prefix of a prefix is a prefix.
proof fn lemma_prefix_trans(a: Seq<Action>, b: Seq<Action>, c: Seq<Action>)
    requires
        a.is_prefix_of(b),
        b.is_prefix_of(c),
    ensures
        a.is_prefix_of(c),
{
    assert(c.subrange(0, a.len() as int) =~= b.subrange(0, a.len() as int));
}

/// What the invariants of a pass give at its end.
proof fn lemma_pass_end(
    db0: &Store,
    db: &Store,
    acts: Seq<Action>,
    cluster: &Topology,
    reports: Seq<NodeReport>,
    now: i64,
    out: Seq<Outcome>,
)
    requires
        all_settled(db0, db, acts, cluster, reports, now, out),
        stored_so_far(db, db0, out, cluster, out.len() as int),
    ensures
        forall|i: int| 0 <= i < out.len() ==> settled(db0, db, acts, cluster, reports, now, #[trigger] out[i], i),
        forall|t: int|
            db0.targets@.len() <= t < db.targets@.len() ==> cluster.is_real(
                #[trigger] db.targets@[t].name@,
            ) && exists|i: int| 0 <= i < out.len() && out[i].name@ == db.targets@[t].name@,
{
    reveal(all_settled);
    reveal(stored_so_far);
}

/// One reconciliation pass. Interprets the scheduler's reports, then
/// handles every stored target, in order, and every real node reported but
/// not stored, each once: a reported node goes through its transition, whose
/// outcome depends on the records as they stood when the pass began; a
/// stored node the scheduler did not report gets an issue saying so unless
/// one is open, and keeps its status.
pub fn pbs_sync(
    reports: &Vec<NodeReport>,
    now: i64,
    db: &mut Store,
    cluster: &Topology,
    actions: &mut Vec<Action>,
) -> (r: Vec<Outcome>)
    requires
        old(db).wf(),
        cluster.wf(),
    ensures
        final(db).wf(),
        targets_extended(old(db), final(db)),
        old(db).pending@.is_prefix_of(final(db).pending@),
        (old(actions)@ + reports@.fold_left(
            Seq::<Action>::empty(),
            |acc: Seq<Action>, n: NodeReport| acc + report_actions(&n),
        )).is_prefix_of(final(actions)@),
        r@.len() >= old(db).targets@.len(),
        forall|i: int|
            0 <= i < old(db).targets@.len() ==> (#[trigger] r@[i]).name@ == old(db).targets@[i].name@
                && r@[i].old_state == old(db).targets@[i].status,
        forall|i: int|
            old(db).targets@.len() <= i < r@.len() ==> {
                &&& (#[trigger] r@[i]).old_state == TargetStatus::Online
                &&& cluster.is_real(r@[i].name@)
                &&& !old(db).holds_target(r@[i].name@)
            },
        forall|j: int|
            0 <= j < reports@.len() && cluster.is_real(reports@[j].name@) && !old(db).holds_target(
                reports@[j].name@,
            ) ==> exists|i: int| 0 <= i < r@.len() && (#[trigger] r@[i]).name@ == reports@[j].name@,
        forall|a: int, b: int|
            0 <= a < b < r@.len() ==> (#[trigger] r@[a]).name@ != (#[trigger] r@[b]).name@,
        forall|i: int|
            0 <= i < r@.len() ==> reported_final(
                old(db),
                cluster,
                reports@,
                (#[trigger] r@[i]).name@,
                r@[i].final_state,
            ),
        forall|i: int|
            0 <= i < r@.len() ==> match (#[trigger] r@[i]).final_state {
                Some(f) => f != r@[i].old_state && cluster.is_real(r@[i].name@) && (old(
                    db,
                ).holds_target(r@[i].name@) || final(db).next_target_id < i32::MAX) ==> exists|t: int|
                    0 <= t < final(db).targets@.len() && #[trigger] final(db).targets@[t].name@
                        == r@[i].name@ && final(db).targets@[t].status == f,
                None => true,
            },
        forall|t: int|
            0 <= t < old(db).targets@.len() && (forall|j: int|
                0 <= j < reports@.len() ==> (#[trigger] reports@[j]).name@ != old(db).targets@[t].name@)
                ==> #[trigger] final(db).targets@[t] == old(db).targets@[t],
        forall|t: int|
            old(db).targets@.len() <= t < final(db).targets@.len() ==> cluster.is_real(
                #[trigger] final(db).targets@[t].name@,
            ) && exists|i: int| 0 <= i < r@.len() && r@[i].name@ == final(db).targets@[t].name@,
        forall|i: int|
            0 <= i < r@.len() ==> settled(
                old(db),
                final(db),
                final(actions)@,
                cluster,
                reports@,
                now,
                #[trigger] r@[i],
                i,
            ),
{
    let statuses = nodes_status(reports, actions);
    proof {
        assert(statuses_match(statuses@, reports@)) by {
            reveal(statuses_match);
        }
        assert forall|j: int| 0 <= j < statuses@.len() implies observable(
            #[trigger] statuses@[j].status,
        ) by {}
        assert(actions@.is_prefix_of(actions@)) by {
            assert(actions@.subrange(0, actions@.len() as int) =~= actions@);
        }
    }
    let ghost a_mid = actions@;
    let nodes = pass_nodes(db, &statuses, cluster);
    let ghost db0 = *db;
    let ghost n0 = db0.targets@.len();
    let ghost mut done: Seq<Seq<char>> = Seq::empty();
    let mut out: Vec<Outcome> = Vec::new();
    proof {
        assert(untouched(db, &db0, done)) by {
            reveal(untouched);
        }
        assert(stored_so_far(db, &db0, out@, cluster, 0)) by {
            reveal(stored_so_far);
        }
        assert(outcomes_so_far(out@, nodes@, &db0, cluster, reports@, 0)) by {
            reveal(outcomes_so_far);
        }
        assert(kept_unhandled(db, &db0, done)) by {
            reveal(kept_unhandled);
        }
        assert(all_settled(&db0, db, actions@, cluster, reports@, now, out@)) by {
            reveal(all_settled);
        }
    }
    let mut i: usize = 0;
    while i < nodes.len()
        invariant
            db0.wf(),
            db.wf(),
            cluster.wf(),
            db0 == *old(db),
            n0 == db0.targets@.len(),
            targets_extended(&db0, db),
            db0.pending@.is_prefix_of(db.pending@),
            a_mid.is_prefix_of(actions@),
            a_mid == old(actions)@ + reports@.fold_left(
                Seq::<Action>::empty(),
                |acc: Seq<Action>, n: NodeReport| acc + report_actions(&n),
            ),
            statuses_match(statuses@, reports@),
            forall|j: int| 0 <= j < statuses@.len() ==> observable(#[trigger] statuses@[j].status),
            nodes_ok(nodes@, &db0, statuses@, cluster),
            i <= nodes@.len(),
            out@.len() == i,
            done.len() == i,
            forall|k: int| 0 <= k < i ==> #[trigger] done[k] == nodes@[k].0@,
            outcomes_so_far(out@, nodes@, &db0, cluster, reports@, i as int),
            untouched(db, &db0, done),
            stored_so_far(db, &db0, out@, cluster, i as int),
            issues_grown(&db0, db),
            kept_unhandled(db, &db0, done),
            all_settled(&db0, db, actions@, cluster, reports@, now, out@),
        decreases nodes@.len() - i,
    {
        let ghost a_before = actions@;
        pass_step(
            &nodes,
            i,
            &statuses,
            now,
            db,
            cluster,
            actions,
            &mut out,
            Ghost(db0),
            Ghost(reports@),
            Ghost(done),
        );
        proof {
            done = done.push(nodes@[i as int].0@);
            lemma_prefix_trans(a_mid, a_before, actions@);
        }
        i = i + 1;
    }
    proof {
        lemma_outcomes_final(out@, nodes@, &db0, statuses@, reports@, cluster);
        lemma_stored_final(db, &db0, out@, nodes@, statuses@, cluster, reports@);
        lemma_pass_end(&db0, db, actions@, cluster, reports@, now, out@);
    }
    out
}

} // verus!
