//! What holds of the reconciliation engine across nodes and across calls.
use vstd::prelude::*;

use crate::cluster::topology::Topology;
use crate::entities::issue::{IssueStatus, ToOffline};
use crate::entities::target::TargetStatus;
use crate::store::Store;
use crate::query::is_selection;
use crate::sync::{
    explains, first_flagged, first_open_wanted, issues_grown, issues_on_kept,
    any_flagged, can_open, closed, comment_room, cousin_flagged, desired_status, effect_of, final_state,
    handled, has_open, issue_added, issues_closed, observable, open_wanted, sibling_flagged,
    targets_extended, wanted, Effect, Want,
};

verus! {

/// An issue that was stored before keeps its target across a change that
/// only appends targets with fresh identifiers.
pub proof fn lemma_issue_on_frame(db0: &Store, db1: &Store, i: int, x: Seq<char>)
    requires
        db0.wf(),
        targets_extended(db0, db1),
        0 <= i < db0.issues@.len(),
        0 <= i < db1.issues@.len(),
        db1.issues@[i].target_id == db0.issues@[i].target_id,
    ensures
        db1.issue_on(i, x) == db0.issue_on(i, x),
{
    if db1.issue_on(i, x) {
        let t = choose|t: int|
            0 <= t < db1.targets@.len() && #[trigger] db1.targets@[t].name@ == x
                && db1.issues@[i].target_id == db1.targets@[t].id;
        if t >= db0.targets@.len() {
            assert(db1.targets@[t].id >= db0.next_target_id);
            assert(db0.issues@[i].target_id < db0.next_target_id);
        } else {
            assert(db0.targets@[t].name@ == x);
        }
    }
    if db0.issue_on(i, x) {
        let t = choose|t: int|
            0 <= t < db0.targets@.len() && #[trigger] db0.targets@[t].name@ == x
                && db0.issues@[i].target_id == db0.targets@[t].id;
        assert(db1.targets@[t].name@ == x);
    }
}

/// An issue raised against two names is raised against one target.
pub proof fn lemma_issue_on_unique(db: &Store, i: int, x: Seq<char>, y: Seq<char>)
    requires
        db.wf(),
        db.issue_on(i, x),
        db.issue_on(i, y),
    ensures
        x == y,
{
    let t = choose|t: int|
        0 <= t < db.targets@.len() && #[trigger] db.targets@[t].name@ == x
            && db.issues@[i].target_id == db.targets@[t].id;
    let u = choose|u: int|
        0 <= u < db.targets@.len() && #[trigger] db.targets@[u].name@ == y
            && db.issues@[i].target_id == db.targets@[u].id;
    if t < u {
        assert(db.targets@[t].id != db.targets@[u].id);
    } else if u < t {
        assert(db.targets@[u].id != db.targets@[t].id);
    }
}

/// A change that keeps every issue and only appends fresh targets keeps
/// every open-issue lookup.
pub proof fn lemma_same_issues(db0: &Store, db1: &Store)
    requires
        db0.wf(),
        targets_extended(db0, db1),
        db1.issues@ == db0.issues@,
    ensures
        forall|x: Seq<char>, w: Want| has_open(db1, x, w) == has_open(db0, x, w),
{
    assert forall|x: Seq<char>, w: Want| has_open(db1, x, w) == has_open(db0, x, w) by {
        if has_open(db1, x, w) {
            let i = choose|i: int| #[trigger] open_wanted(db1, i, x, w);
            lemma_issue_on_frame(db0, db1, i, x);
            assert(open_wanted(db0, i, x, w));
        }
        if has_open(db0, x, w) {
            let i = choose|i: int| #[trigger] open_wanted(db0, i, x, w);
            lemma_issue_on_frame(db0, db1, i, x);
            assert(open_wanted(db1, i, x, w));
        }
    }
}

/// Appending an open issue without offline scope against `n` changes no
/// lookup but that of every open issue on `n`, which then finds one.
pub proof fn lemma_added_unscoped(
    db0: &Store,
    db1: &Store,
    n: Seq<char>,
    k: int,
    title: Seq<char>,
    description: Seq<char>,
)
    requires
        db0.wf(),
        db1.wf(),
        targets_extended(db0, db1),
        issue_added(db0, db1, n, k, None, title, description),
    ensures
        forall|x: Seq<char>, w: Want|
            x != n || w != Want::Any ==> has_open(db1, x, w) == has_open(db0, x, w),
        has_open(db1, n, Want::Any),
{
    assert(open_wanted(db1, k, n, Want::Any));
    assert forall|x: Seq<char>, w: Want|
        x != n || w != Want::Any implies has_open(db1, x, w) == has_open(db0, x, w) by {
        if has_open(db1, x, w) {
            let i = choose|i: int| #[trigger] open_wanted(db1, i, x, w);
            if i == k {
                if w == Want::Any {
                    lemma_issue_on_unique(db1, k, x, n);
                }
            } else {
                assert(db1.issues@[i] == db0.issues@[i]);
                lemma_issue_on_frame(db0, db1, i, x);
                assert(open_wanted(db0, i, x, w));
            }
        }
        if has_open(db0, x, w) {
            let i = choose|i: int| #[trigger] open_wanted(db0, i, x, w);
            assert(db1.issues@[i] == db0.issues@[i]);
            lemma_issue_on_frame(db0, db1, i, x);
            assert(open_wanted(db1, i, x, w));
        }
    }
}

/// Closing the open issues of `n`, none of which takes anything offline,
/// changes no lookup but that of every open issue on `n`, which then finds
/// none.
pub proof fn lemma_closed_unscoped(db0: &Store, db1: &Store, n: Seq<char>, sel: Seq<usize>, now: i64)
    requires
        db0.wf(),
        targets_extended(db0, db1),
        issues_closed(db0, db1, n, sel, now),
        !has_open(db0, n, Want::Offlining),
    ensures
        forall|x: Seq<char>, w: Want|
            x != n || w != Want::Any ==> has_open(db1, x, w) == has_open(db0, x, w),
        !has_open(db1, n, Want::Any),
{
    assert forall|x: Seq<char>, w: Want|
        x != n || w != Want::Any implies has_open(db1, x, w) == has_open(db0, x, w) by {
        if has_open(db1, x, w) {
            let i = choose|i: int| #[trigger] open_wanted(db1, i, x, w);
            lemma_issue_on_frame(db0, db1, i, x);
            if db0.open_on(i, n) {
                assert(closed(db0.issues@[i], db1.issues@[i]));
            } else {
                assert(db1.issues@[i] == db0.issues@[i]);
            }
            assert(open_wanted(db0, i, x, w));
        }
        if has_open(db0, x, w) {
            let i = choose|i: int| #[trigger] open_wanted(db0, i, x, w);
            lemma_issue_on_frame(db0, db1, i, x);
            if db0.open_on(i, n) {
                lemma_issue_on_unique(db0, i, x, n);
                assert(!open_wanted(db0, i, n, Want::Offlining));
            } else {
                assert(db1.issues@[i] == db0.issues@[i]);
                assert(open_wanted(db1, i, x, w));
            }
        }
    }
    if has_open(db1, n, Want::Any) {
        let i = choose|i: int| #[trigger] open_wanted(db1, i, n, Want::Any);
        lemma_issue_on_frame(db0, db1, i, n);
        if db0.open_on(i, n) {
            assert(closed(db0.issues@[i], db1.issues@[i]));
        } else {
            assert(db1.issues@[i] == db0.issues@[i]);
        }
    }
}

/// Where lookups differ at most for every open issue on `n`, every other
/// node keeps its desired status.
pub proof fn lemma_desired_frame(db0: &Store, db1: &Store, topo: &Topology, n: Seq<char>)
    requires
        forall|x: Seq<char>, w: Want|
            x != n || w != Want::Any ==> has_open(db1, x, w) == has_open(db0, x, w),
    ensures
        forall|m: Seq<char>|
            m != n ==> #[trigger] desired_status(db1, topo, m) == desired_status(db0, topo, m),
        has_open(db1, n, Want::Offlining) == has_open(db0, n, Want::Offlining),
        sibling_flagged(db1, topo, n) == sibling_flagged(db0, topo, n),
        cousin_flagged(db1, topo, n) == cousin_flagged(db0, topo, n),
        has_open(db1, n, Want::Any) == has_open(db0, n, Want::Any) ==> desired_status(db1, topo, n)
            == desired_status(db0, topo, n),
{
    assert forall|names: Seq<Seq<char>>, s: ToOffline|
        any_flagged(db1, names, s) == any_flagged(db0, names, s) by {
        if any_flagged(db1, names, s) {
            let k = choose|k: int|
                0 <= k < names.len() && has_open(db1, #[trigger] names[k], Want::Scope(s));
            assert(has_open(db0, names[k], Want::Scope(s)));
        }
        if any_flagged(db0, names, s) {
            let k = choose|k: int|
                0 <= k < names.len() && has_open(db0, #[trigger] names[k], Want::Scope(s));
            assert(has_open(db1, names[k], Want::Scope(s)));
        }
    }
    assert forall|m: Seq<char>| m != n implies #[trigger] desired_status(db1, topo, m)
        == desired_status(db0, topo, m) by {
        assert(has_open(db1, m, Want::Any) == has_open(db0, m, Want::Any));
        assert(has_open(db1, m, Want::Offlining) == has_open(db0, m, Want::Offlining));
        assert(sibling_flagged(db1, topo, m) == sibling_flagged(db0, topo, m));
        assert(cousin_flagged(db1, topo, m) == cousin_flagged(db0, topo, m));
    }
    assert(sibling_flagged(db1, topo, n) == sibling_flagged(db0, topo, n));
    assert(cousin_flagged(db1, topo, n) == cousin_flagged(db0, topo, n));
}

/// Closing issue `i` of `n` changes no lookup but those that issue answers.
pub proof fn lemma_close_one(db0: &Store, db1: &Store, i: int, n: Seq<char>)
    requires
        db0.wf(),
        db0.open_on(i, n),
        db1.targets@ == db0.targets@,
        db1.issues@.len() == db0.issues@.len(),
        closed(db0.issues@[i], db1.issues@[i]),
        forall|j: int| 0 <= j < db0.issues@.len() && j != i ==> db1.issues@[j] == db0.issues@[j],
    ensures
        forall|x: Seq<char>, w: Want|
            !(x == n && wanted(w, db0.issues@[i].to_offline)) ==> has_open(db1, x, w) == has_open(
                db0,
                x,
                w,
            ),
{
    assert forall|x: Seq<char>, w: Want|
        !(x == n && wanted(w, db0.issues@[i].to_offline)) implies has_open(db1, x, w) == has_open(
        db0,
        x,
        w,
    ) by {
        if has_open(db1, x, w) {
            let j = choose|j: int| #[trigger] open_wanted(db1, j, x, w);
            assert(db1.issue_on(j, x) == db0.issue_on(j, x));
            if j != i {
                assert(open_wanted(db0, j, x, w));
            }
        }
        if has_open(db0, x, w) {
            let j = choose|j: int| #[trigger] open_wanted(db0, j, x, w);
            assert(db1.issue_on(j, x) == db0.issue_on(j, x));
            if j == i {
                lemma_issue_on_unique(db0, i, x, n);
            } else {
                assert(open_wanted(db1, j, x, w));
            }
        }
    }
}

/// An open issue on `n` that takes its siblings offline makes every
/// sibling of `n` desired `Offline`.
pub proof fn lemma_sibling_scope_offlines(db: &Store, topo: &Topology, n: Seq<char>, s: Seq<char>)
    requires
        db.wf(),
        topo.wf(),
        has_open(db, n, Want::Scope(ToOffline::Siblings)),
        topo.spec_siblings(n).contains(s),
    ensures
        desired_status(db, topo, s) == TargetStatus::Offline,
{
    topo.lemma_siblings_symmetric(n, s);
    let k = choose|k: int| 0 <= k < topo.spec_siblings(s).len() && topo.spec_siblings(s)[k] == n;
    assert(has_open(db, topo.spec_siblings(s)[k], Want::Scope(ToOffline::Siblings)));
}

/// An issue on `n` that takes its siblings offline plays no part in the
/// desired status of a node that is neither `n` nor one of its siblings:
/// closing it leaves that status as it was.
pub proof fn lemma_sibling_scope_spares_others(
    db0: &Store,
    db1: &Store,
    topo: &Topology,
    n: Seq<char>,
    i: int,
    m: Seq<char>,
)
    requires
        db0.wf(),
        topo.wf(),
        db0.open_on(i, n),
        db0.issues@[i].to_offline == Some(ToOffline::Siblings),
        db1.targets@ == db0.targets@,
        db1.issues@.len() == db0.issues@.len(),
        closed(db0.issues@[i], db1.issues@[i]),
        forall|j: int| 0 <= j < db0.issues@.len() && j != i ==> db1.issues@[j] == db0.issues@[j],
        m != n,
        !topo.spec_siblings(m).contains(n),
    ensures
        desired_status(db1, topo, m) == desired_status(db0, topo, m),
{
    lemma_close_one(db0, db1, i, n);
    let sibs = topo.spec_siblings(m);
    let cousins = topo.spec_cousins(m);
    assert forall|k: int| 0 <= k < sibs.len() implies has_open(
        db1,
        #[trigger] sibs[k],
        Want::Scope(ToOffline::Siblings),
    ) == has_open(db0, sibs[k], Want::Scope(ToOffline::Siblings)) by {
        assert(sibs[k] != n);
    }
    assert forall|k: int| 0 <= k < cousins.len() implies has_open(
        db1,
        #[trigger] cousins[k],
        Want::Scope(ToOffline::Cousins),
    ) == has_open(db0, cousins[k], Want::Scope(ToOffline::Cousins)) by {}
    assert(sibling_flagged(db1, topo, m) == sibling_flagged(db0, topo, m));
    assert(cousin_flagged(db1, topo, m) == cousin_flagged(db0, topo, m));
    assert(has_open(db1, m, Want::Any) == has_open(db0, m, Want::Any));
    assert(has_open(db1, m, Want::Offlining) == has_open(db0, m, Want::Offlining));
}

/// An open issue on `n` that takes its cousins offline makes every cousin
/// of `n` desired `Offline`.
pub proof fn lemma_cousin_scope_offlines(db: &Store, topo: &Topology, n: Seq<char>, c: Seq<char>)
    requires
        db.wf(),
        topo.wf(),
        has_open(db, n, Want::Scope(ToOffline::Cousins)),
        topo.spec_cousins(n).contains(c),
    ensures
        desired_status(db, topo, c) == TargetStatus::Offline,
{
    topo.lemma_cousins_symmetric(n, c);
    let k = choose|k: int| 0 <= k < topo.spec_cousins(c).len() && topo.spec_cousins(c)[k] == n;
    assert(has_open(db, topo.spec_cousins(c)[k], Want::Scope(ToOffline::Cousins)));
}

/// An issue on `n` that takes its cousins offline plays no part in the
/// desired status of a node that is neither `n` nor one of its cousins:
/// closing it leaves that status as it was.
pub proof fn lemma_cousin_scope_spares_others(
    db0: &Store,
    db1: &Store,
    topo: &Topology,
    n: Seq<char>,
    i: int,
    m: Seq<char>,
)
    requires
        db0.wf(),
        topo.wf(),
        db0.open_on(i, n),
        db0.issues@[i].to_offline == Some(ToOffline::Cousins),
        db1.targets@ == db0.targets@,
        db1.issues@.len() == db0.issues@.len(),
        closed(db0.issues@[i], db1.issues@[i]),
        forall|j: int| 0 <= j < db0.issues@.len() && j != i ==> db1.issues@[j] == db0.issues@[j],
        m != n,
        !topo.spec_cousins(m).contains(n),
    ensures
        desired_status(db1, topo, m) == desired_status(db0, topo, m),
{
    lemma_close_one(db0, db1, i, n);
    let sibs = topo.spec_siblings(m);
    let cousins = topo.spec_cousins(m);
    assert forall|k: int| 0 <= k < sibs.len() implies has_open(
        db1,
        #[trigger] sibs[k],
        Want::Scope(ToOffline::Siblings),
    ) == has_open(db0, sibs[k], Want::Scope(ToOffline::Siblings)) by {}
    assert forall|k: int| 0 <= k < cousins.len() implies has_open(
        db1,
        #[trigger] cousins[k],
        Want::Scope(ToOffline::Cousins),
    ) == has_open(db0, cousins[k], Want::Scope(ToOffline::Cousins)) by {
        assert(cousins[k] != n);
    }
    assert(sibling_flagged(db1, topo, m) == sibling_flagged(db0, topo, m));
    assert(cousin_flagged(db1, topo, m) == cousin_flagged(db0, topo, m));
    assert(has_open(db1, m, Want::Any) == has_open(db0, m, Want::Any));
    assert(has_open(db1, m, Want::Offlining) == has_open(db0, m, Want::Offlining));
}

/// Handling the transition of a node twice, on the same observation, ends
/// in the same final state both times, and the second run opens an issue
/// only where the first opened none.
pub proof fn lemma_transition_idempotent(
    db0: &Store,
    db1: &Store,
    db2: &Store,
    topo: &Topology,
    n: Seq<char>,
    comment: Seq<char>,
    observed: TargetStatus,
    now: i64,
)
    requires
        db0.wf(),
        db1.wf(),
        topo.wf(),
        observable(observed),
        handled(db0, db1, topo, n, comment, observed, now),
        handled(db1, db2, topo, n, comment, observed, now),
    ensures
        final_state(db1, topo, n, observed) == final_state(db0, topo, n, observed),
        db2.issues@.len() > db1.issues@.len() ==> db1.issues@.len() == db0.issues@.len(),
{
    let e0 = effect_of(db0, topo, n, observed);
    if e0 == Effect::OpenIssue && can_open(db0, n) {
        lemma_added_unscoped(db0, db1, n, db0.issues@.len() as int, comment, comment);
        lemma_desired_frame(db0, db1, topo, n);
        assert(desired_status(db1, topo, n) == TargetStatus::Down);
    } else if e0 == Effect::CloseIssues && comment_room(db0) {
        let sel = choose|sel: Seq<usize>| issues_closed(db0, db1, n, sel, now);
        lemma_closed_unscoped(db0, db1, n, sel, now);
        lemma_desired_frame(db0, db1, topo, n);
        assert(desired_status(db1, topo, n) == TargetStatus::Online);
    } else {
        lemma_same_issues(db0, db1);
        lemma_desired_frame(db0, db1, topo, n);
        assert(desired_status(db1, topo, n) == desired_status(db0, topo, n));
    }
}

/// Opening an issue without offline scope on a real node that nothing else
/// takes offline, then observing that node up, closes every open issue on
/// it, the new one included, appending one audit comment for each.
pub proof fn lemma_open_then_up_closes(
    db0: &Store,
    db1: &Store,
    db2: &Store,
    topo: &Topology,
    n: Seq<char>,
    k: int,
    title: Seq<char>,
    description: Seq<char>,
    comment: Seq<char>,
    now: i64,
)
    requires
        db0.wf(),
        db1.wf(),
        topo.wf(),
        topo.is_real(n),
        !has_open(db0, n, Want::Offlining),
        !sibling_flagged(db0, topo, n),
        !cousin_flagged(db0, topo, n),
        targets_extended(db0, db1),
        issue_added(db0, db1, n, k, None, title, description),
        comment_room(db1),
        handled(db1, db2, topo, n, comment, TargetStatus::Online, now),
    ensures
        effect_of(db1, topo, n, TargetStatus::Online) == Effect::CloseIssues,
        final_state(db1, topo, n, TargetStatus::Online) == TargetStatus::Online,
        exists|sel: Seq<usize>| #[trigger]
            issues_closed(db1, db2, n, sel, now) && exists|j: int| 0 <= j < sel.len() && sel[j] == k,
        forall|i: int| !#[trigger] db2.open_on(i, n),
{
    lemma_added_unscoped(db0, db1, n, k, title, description);
    lemma_desired_frame(db0, db1, topo, n);
    assert(desired_status(db1, topo, n) == TargetStatus::Down);
    let sel = choose|sel: Seq<usize>| issues_closed(db1, db2, n, sel, now);
    assert(db1.open_on(k, n));
    let p = |i: int| db1.open_on(i, n);
    assert(p(k));
    assert(is_selection(sel, db1.issues@.len() as int, p));
    assert(exists|j: int| 0 <= j < sel.len() && sel[j] == k);
    assert(!has_open(db1, n, Want::Offlining));
    lemma_closed_unscoped(db1, db2, n, sel, now);
    assert forall|i: int| !#[trigger] db2.open_on(i, n) by {
        if db2.open_on(i, n) {
            assert(open_wanted(db2, i, n, Want::Any));
        }
    }
}

/// Handling the transition of `n` changes no lookup but that of every open
/// issue on `n`.
pub proof fn lemma_handled_frame(
    db0: &Store,
    db1: &Store,
    topo: &Topology,
    n: Seq<char>,
    comment: Seq<char>,
    observed: TargetStatus,
    now: i64,
)
    requires
        db0.wf(),
        db1.wf(),
        handled(db0, db1, topo, n, comment, observed, now),
    ensures
        forall|x: Seq<char>, w: Want|
            x != n || w != Want::Any ==> has_open(db1, x, w) == has_open(db0, x, w),
{
    let e0 = effect_of(db0, topo, n, observed);
    if e0 == Effect::OpenIssue && can_open(db0, n) {
        lemma_added_unscoped(db0, db1, n, db0.issues@.len() as int, comment, comment);
    } else if e0 == Effect::CloseIssues && comment_room(db0) {
        let sel = choose|sel: Seq<usize>| issues_closed(db0, db1, n, sel, now);
        lemma_closed_unscoped(db0, db1, n, sel, now);
    } else {
        lemma_same_issues(db0, db1);
    }
}

/// Appending targets with fresh identifiers, twice, appends targets with
/// fresh identifiers.
#[verifier::spinoff_prover]
pub proof fn lemma_targets_extended_trans(db0: &Store, db1: &Store, db2: &Store)
    requires
        targets_extended(db0, db1),
        targets_extended(db1, db2),
    ensures
        targets_extended(db0, db2),
{
    assert forall|t: int| db0.targets@.len() <= t < db2.targets@.len() implies #[trigger]
        db2.targets@[t].id >= db0.next_target_id by {
        if t < db1.targets@.len() {
            assert(db2.targets@[t].name@ == db1.targets@[t].name@);
            assert(db1.targets@[t].id >= db0.next_target_id);
        } else {
            assert(db2.targets@[t].id >= db1.next_target_id);
        }
    }
    assert forall|t: int| 0 <= t < db0.targets@.len() implies #[trigger] db2.targets@[t].name@
        == db0.targets@[t].name@ && db2.targets@[t].id == db0.targets@[t].id by {
        assert(db1.targets@[t].name@ == db0.targets@[t].name@);
        assert(db2.targets@[t].name@ == db1.targets@[t].name@);
    }
    assert(db0.targets@.len() <= db2.targets@.len());
    assert(db0.next_target_id <= db2.next_target_id);
    assert(db0.next_issue_id <= db2.next_issue_id);
    assert(db0.next_comment_id <= db2.next_comment_id);
}

/// What handling a transition did to issues and comments survives a later
/// change that only appends fresh targets or changes statuses.
pub proof fn lemma_handled_extend(
    db0: &Store,
    db1: &Store,
    db2: &Store,
    topo: &Topology,
    n: Seq<char>,
    comment: Seq<char>,
    observed: TargetStatus,
    now: i64,
)
    requires
        db1.wf(),
        handled(db0, db1, topo, n, comment, observed, now),
        targets_extended(db1, db2),
        db2.issues@ == db1.issues@,
        db2.comments@ == db1.comments@,
        db2.next_comment_id == db1.next_comment_id,
    ensures
        handled(db0, db2, topo, n, comment, observed, now),
{
    lemma_targets_extended_trans(db0, db1, db2);
    let e0 = effect_of(db0, topo, n, observed);
    if e0 == Effect::OpenIssue && can_open(db0, n) {
        let k = db0.issues@.len() as int;
        lemma_issue_on_frame(db1, db2, k, n);
        assert(db2.open_on(k, n));
    } else if e0 == Effect::CloseIssues && comment_room(db0) {
        let sel = choose|sel: Seq<usize>| issues_closed(db0, db1, n, sel, now);
        assert(issues_closed(db0, db2, n, sel, now));
    }
}

/// A node whose own lookups are unchanged, among changes to no lookup but
/// those of every open issue on some nodes, keeps its desired status.
pub proof fn lemma_desired_same_at(db0: &Store, db1: &Store, topo: &Topology, m: Seq<char>)
    requires
        forall|x: Seq<char>, w: Want| w != Want::Any ==> has_open(db1, x, w) == has_open(db0, x, w),
        has_open(db1, m, Want::Any) == has_open(db0, m, Want::Any),
    ensures
        desired_status(db1, topo, m) == desired_status(db0, topo, m),
{
    let sibs = topo.spec_siblings(m);
    let cousins = topo.spec_cousins(m);
    assert forall|k: int| 0 <= k < sibs.len() implies has_open(
        db1,
        #[trigger] sibs[k],
        Want::Scope(ToOffline::Siblings),
    ) == has_open(db0, sibs[k], Want::Scope(ToOffline::Siblings)) by {}
    assert forall|k: int| 0 <= k < cousins.len() implies has_open(
        db1,
        #[trigger] cousins[k],
        Want::Scope(ToOffline::Cousins),
    ) == has_open(db0, cousins[k], Want::Scope(ToOffline::Cousins)) by {}
    assert(sibling_flagged(db1, topo, m) == sibling_flagged(db0, topo, m));
    assert(cousin_flagged(db1, topo, m) == cousin_flagged(db0, topo, m));
    assert(has_open(db1, m, Want::Offlining) == has_open(db0, m, Want::Offlining));
}

/// Issues that keep their targets and grow by appending keep which names
/// they are raised against.
pub proof fn lemma_grown_issue_on(db0: &Store, db1: &Store, i: int, x: Seq<char>)
    requires
        db0.wf(),
        targets_extended(db0, db1),
        issues_grown(db0, db1),
        0 <= i < db0.issues@.len(),
    ensures
        db1.issue_on(i, x) == db0.issue_on(i, x),
{
    lemma_issue_on_frame(db0, db1, i, x);
}

/// Keeping the issues of `x` twice keeps them.
pub proof fn lemma_kept_trans(db0: &Store, db1: &Store, db2: &Store, x: Seq<char>)
    requires
        db0.wf(),
        db1.wf(),
        targets_extended(db0, db1),
        targets_extended(db1, db2),
        issues_grown(db0, db1),
        issues_grown(db1, db2),
        issues_on_kept(db0, db1, x),
        issues_on_kept(db1, db2, x),
    ensures
        issues_grown(db0, db2),
        issues_on_kept(db0, db2, x),
{
    assert forall|i: int| 0 <= i < db0.issues@.len() && #[trigger] db0.issue_on(i, x) implies db2.issues@[i]
        == db0.issues@[i] by {
        lemma_grown_issue_on(db0, db1, i, x);
    }
    assert forall|i: int| db0.issues@.len() <= i < db2.issues@.len() implies !#[trigger] db2.issue_on(i, x) by {
        if i < db1.issues@.len() {
            lemma_grown_issue_on(db1, db2, i, x);
        }
    }
}

/// A change that keeps every issue keeps the issues of every name.
pub proof fn lemma_same_kept(db0: &Store, db1: &Store)
    requires
        db0.wf(),
        targets_extended(db0, db1),
        db1.issues@ == db0.issues@,
    ensures
        issues_grown(db0, db1),
        forall|x: Seq<char>| #[trigger] issues_on_kept(db0, db1, x),
{
}

/// Appending an issue on `n` keeps the issues of every other name.
pub proof fn lemma_added_kept(
    db0: &Store,
    db1: &Store,
    n: Seq<char>,
    k: int,
    t: Option<ToOffline>,
    title: Seq<char>,
    description: Seq<char>,
)
    requires
        db0.wf(),
        db1.wf(),
        targets_extended(db0, db1),
        issue_added(db0, db1, n, k, t, title, description),
    ensures
        issues_grown(db0, db1),
        forall|x: Seq<char>| x != n ==> #[trigger] issues_on_kept(db0, db1, x),
{
    assert forall|i: int| 0 <= i < db0.issues@.len() implies #[trigger] db1.issues@[i] == db0.issues@[i] by {
        assert(db1.issues@.drop_last()[i] == db1.issues@[i]);
    }
    assert forall|x: Seq<char>| x != n implies #[trigger] issues_on_kept(db0, db1, x) by {
        assert forall|i: int| db0.issues@.len() <= i < db1.issues@.len() implies !#[trigger] db1.issue_on(i, x) by {
            if db1.issue_on(i, x) {
                lemma_issue_on_unique(db1, k, x, n);
            }
        }
    }
}

/// Closing the open issues of `n` keeps the issues of every other name.
pub proof fn lemma_closed_kept(db0: &Store, db1: &Store, n: Seq<char>, sel: Seq<usize>, now: i64)
    requires
        db0.wf(),
        targets_extended(db0, db1),
        issues_closed(db0, db1, n, sel, now),
    ensures
        issues_grown(db0, db1),
        forall|x: Seq<char>| x != n ==> #[trigger] issues_on_kept(db0, db1, x),
{
    assert forall|i: int| 0 <= i < db0.issues@.len() implies #[trigger] db1.issues@[i].target_id
        == db0.issues@[i].target_id by {
        if db0.open_on(i, n) {
            assert(closed(db0.issues@[i], db1.issues@[i]));
        }
    }
    assert forall|x: Seq<char>| x != n implies #[trigger] issues_on_kept(db0, db1, x) by {
        assert forall|i: int| 0 <= i < db0.issues@.len() && #[trigger] db0.issue_on(i, x) implies db1.issues@[i]
            == db0.issues@[i] by {
            if db0.open_on(i, n) {
                lemma_issue_on_unique(db0, i, x, n);
            }
        }
    }
}

/// Open-issue lookups on `n` answer alike where every lookup but those of
/// every open issue on other nodes agrees and the issues of `n` are kept;
/// so does the reason given for its desired status.
pub proof fn lemma_explains_same(db0: &Store, db1: &Store, topo: &Topology, n: Seq<char>, c: Seq<char>)
    requires
        db0.wf(),
        targets_extended(db0, db1),
        issues_grown(db0, db1),
        issues_on_kept(db0, db1, n),
        forall|x: Seq<char>, w: Want| w != Want::Any ==> has_open(db1, x, w) == has_open(db0, x, w),
    ensures
        explains(db1, topo, n, c) == explains(db0, topo, n, c),
{
    assert forall|i: int, w: Want|
        #![trigger open_wanted(db1, i, n, w)]
        #![trigger open_wanted(db0, i, n, w)]
        open_wanted(db1, i, n, w) == open_wanted(db0, i, n, w) by {
        if 0 <= i < db0.issues@.len() {
            lemma_grown_issue_on(db0, db1, i, n);
        }
    }
    assert(has_open(db1, n, Want::Any) == has_open(db0, n, Want::Any)) by {
        if has_open(db1, n, Want::Any) {
            let i = choose|i: int| #[trigger] open_wanted(db1, i, n, Want::Any);
            assert(open_wanted(db0, i, n, Want::Any));
        }
        if has_open(db0, n, Want::Any) {
            let i = choose|i: int| #[trigger] open_wanted(db0, i, n, Want::Any);
            assert(open_wanted(db1, i, n, Want::Any));
        }
    }
    assert forall|k: int, w: Want|
        #![trigger first_open_wanted(db1, n, w, k)]
        #![trigger first_open_wanted(db0, n, w, k)]
        first_open_wanted(db1, n, w, k) == first_open_wanted(db0, n, w, k) by {}
    assert(has_open(db1, n, Want::Offlining) == has_open(db0, n, Want::Offlining));
    assert forall|names: Seq<Seq<char>>, s: ToOffline, k: int|
        #![trigger first_flagged(db1, names, s, k)]
        #![trigger first_flagged(db0, names, s, k)]
        first_flagged(db1, names, s, k) == first_flagged(db0, names, s, k) by {
        if 0 <= k < names.len() {
            assert(has_open(db1, names[k], Want::Scope(s)) == has_open(db0, names[k], Want::Scope(s)));
        }
        assert forall|j: int| 0 <= j < k && j < names.len() implies has_open(db1, #[trigger] names[j], Want::Scope(s))
            == has_open(db0, names[j], Want::Scope(s)) by {}
    }
    assert forall|names: Seq<Seq<char>>, s: ToOffline|
        #[trigger] any_flagged(db1, names, s) == any_flagged(db0, names, s) by {
        if any_flagged(db1, names, s) {
            let k = choose|k: int| 0 <= k < names.len() && has_open(db1, #[trigger] names[k], Want::Scope(s));
            assert(has_open(db0, names[k], Want::Scope(s)));
        }
        if any_flagged(db0, names, s) {
            let k = choose|k: int| 0 <= k < names.len() && has_open(db0, #[trigger] names[k], Want::Scope(s));
            assert(has_open(db1, names[k], Want::Scope(s)));
        }
    }
    assert forall|k: int, w: Want|
        #![trigger first_open_wanted(db1, n, w, k)]
        #![trigger first_open_wanted(db0, n, w, k)]
        first_open_wanted(db0, n, w, k) ==> db1.issues@[k] == db0.issues@[k] by {
        if first_open_wanted(db0, n, w, k) {
            assert(open_wanted(db0, k, n, w));
        }
    }
    if topo.is_real(n) && has_open(db0, n, Want::Offlining) {
        if explains(db0, topo, n, c) {
            let k = choose|k: int|
                first_open_wanted(db0, n, Want::Offlining, k) && c == db0.issues@[k].title@;
            assert(first_open_wanted(db1, n, Want::Offlining, k));
        }
        if explains(db1, topo, n, c) {
            let k = choose|k: int|
                first_open_wanted(db1, n, Want::Offlining, k) && c == db1.issues@[k].title@;
            assert(first_open_wanted(db0, n, Want::Offlining, k));
        }
    } else if topo.is_real(n) && !sibling_flagged(db0, topo, n) && !cousin_flagged(db0, topo, n)
        && has_open(db0, n, Want::Any) {
        if explains(db0, topo, n, c) {
            let k = choose|k: int| first_open_wanted(db0, n, Want::Any, k) && c == db0.issues@[k].title@;
            assert(first_open_wanted(db1, n, Want::Any, k));
        }
        if explains(db1, topo, n, c) {
            let k = choose|k: int| first_open_wanted(db1, n, Want::Any, k) && c == db1.issues@[k].title@;
            assert(first_open_wanted(db0, n, Want::Any, k));
        }
    }
}

/// Handling the transition of `n` keeps the issues of every other name,
/// and those of `n` too where it neither opens nor closes any.
pub proof fn lemma_handled_kept(
    db0: &Store,
    db1: &Store,
    topo: &Topology,
    n: Seq<char>,
    comment: Seq<char>,
    observed: TargetStatus,
    now: i64,
)
    requires
        db0.wf(),
        db1.wf(),
        handled(db0, db1, topo, n, comment, observed, now),
    ensures
        issues_grown(db0, db1),
        forall|x: Seq<char>| x != n ==> #[trigger] issues_on_kept(db0, db1, x),
        effect_of(db0, topo, n, observed) == Effect::Nothing || effect_of(db0, topo, n, observed)
            == Effect::OfflineNode ==> issues_on_kept(db0, db1, n),
{
    let e0 = effect_of(db0, topo, n, observed);
    if e0 == Effect::OpenIssue && can_open(db0, n) {
        lemma_added_kept(db0, db1, n, db0.issues@.len() as int, None, comment, comment);
    } else if e0 == Effect::CloseIssues && comment_room(db0) {
        let sel = choose|sel: Seq<usize>| issues_closed(db0, db1, n, sel, now);
        lemma_closed_kept(db0, db1, n, sel, now);
    } else {
        lemma_same_kept(db0, db1);
    }
}

/// Appending an open issue on `n` of scope `t` changes no lookup but those
/// that issue answers.
pub proof fn lemma_added_one(
    db0: &Store,
    db1: &Store,
    n: Seq<char>,
    k: int,
    t: Option<ToOffline>,
    title: Seq<char>,
    description: Seq<char>,
)
    requires
        db0.wf(),
        db1.wf(),
        targets_extended(db0, db1),
        issue_added(db0, db1, n, k, t, title, description),
    ensures
        forall|x: Seq<char>, w: Want|
            !(x == n && wanted(w, t)) ==> has_open(db1, x, w) == has_open(db0, x, w),
{
    assert forall|x: Seq<char>, w: Want|
        !(x == n && wanted(w, t)) implies has_open(db1, x, w) == has_open(db0, x, w) by {
        if has_open(db1, x, w) {
            let i = choose|i: int| #[trigger] open_wanted(db1, i, x, w);
            if i == k {
                lemma_issue_on_unique(db1, k, x, n);
            } else {
                assert(db1.issues@[i] == db0.issues@[i]);
                lemma_issue_on_frame(db0, db1, i, x);
                assert(open_wanted(db0, i, x, w));
            }
        }
        if has_open(db0, x, w) {
            let i = choose|i: int| #[trigger] open_wanted(db0, i, x, w);
            assert(db1.issues@[i] == db0.issues@[i]);
            lemma_issue_on_frame(db0, db1, i, x);
            assert(open_wanted(db1, i, x, w));
        }
    }
}

/// Where lookups differ at most on `n` for the scope `s`, a node `m` that
/// is neither `n` nor has `n` among its nodes of that scope keeps its
/// desired status.
proof fn lemma_scope_spares(db0: &Store, db1: &Store, topo: &Topology, n: Seq<char>, s: ToOffline, m: Seq<char>)
    requires
        forall|x: Seq<char>, w: Want|
            !(x == n && wanted(w, Some(s))) ==> has_open(db1, x, w) == has_open(db0, x, w),
        m != n,
        s == ToOffline::Siblings ==> !topo.spec_siblings(m).contains(n),
        s == ToOffline::Cousins ==> !topo.spec_cousins(m).contains(n),
        s != ToOffline::Target,
    ensures
        desired_status(db1, topo, m) == desired_status(db0, topo, m),
{
    let sibs = topo.spec_siblings(m);
    let cousins = topo.spec_cousins(m);
    assert forall|k: int| 0 <= k < sibs.len() implies has_open(
        db1,
        #[trigger] sibs[k],
        Want::Scope(ToOffline::Siblings),
    ) == has_open(db0, sibs[k], Want::Scope(ToOffline::Siblings)) by {
        if s == ToOffline::Siblings {
            assert(sibs[k] != n);
        }
    }
    assert forall|k: int| 0 <= k < cousins.len() implies has_open(
        db1,
        #[trigger] cousins[k],
        Want::Scope(ToOffline::Cousins),
    ) == has_open(db0, cousins[k], Want::Scope(ToOffline::Cousins)) by {
        if s == ToOffline::Cousins {
            assert(cousins[k] != n);
        }
    }
    assert(sibling_flagged(db1, topo, m) == sibling_flagged(db0, topo, m));
    assert(cousin_flagged(db1, topo, m) == cousin_flagged(db0, topo, m));
    assert(has_open(db1, m, Want::Any) == has_open(db0, m, Want::Any));
    assert(has_open(db1, m, Want::Offlining) == has_open(db0, m, Want::Offlining));
}

/// Opening an issue on `n` that takes its siblings offline leaves the
/// desired status of every node that is neither `n` nor a sibling of `n`
/// (its cousins included) as it was.
pub proof fn lemma_sibling_scope_added_spares_others(
    db0: &Store,
    db1: &Store,
    topo: &Topology,
    n: Seq<char>,
    k: int,
    title: Seq<char>,
    description: Seq<char>,
    m: Seq<char>,
)
    requires
        db0.wf(),
        db1.wf(),
        targets_extended(db0, db1),
        issue_added(db0, db1, n, k, Some(ToOffline::Siblings), title, description),
        m != n,
        !topo.spec_siblings(m).contains(n),
    ensures
        desired_status(db1, topo, m) == desired_status(db0, topo, m),
{
    lemma_added_one(db0, db1, n, k, Some(ToOffline::Siblings), title, description);
    lemma_scope_spares(db0, db1, topo, n, ToOffline::Siblings, m);
}

/// Opening an issue on `n` that takes its cousins offline leaves the
/// desired status of every node that is neither `n` nor a cousin of `n`
/// as it was.
pub proof fn lemma_cousin_scope_added_spares_others(
    db0: &Store,
    db1: &Store,
    topo: &Topology,
    n: Seq<char>,
    k: int,
    title: Seq<char>,
    description: Seq<char>,
    m: Seq<char>,
)
    requires
        db0.wf(),
        db1.wf(),
        targets_extended(db0, db1),
        issue_added(db0, db1, n, k, Some(ToOffline::Cousins), title, description),
        m != n,
        !topo.spec_cousins(m).contains(n),
    ensures
        desired_status(db1, topo, m) == desired_status(db0, topo, m),
{
    lemma_added_one(db0, db1, n, k, Some(ToOffline::Cousins), title, description);
    lemma_scope_spares(db0, db1, topo, n, ToOffline::Cousins, m);
}

} // verus!
