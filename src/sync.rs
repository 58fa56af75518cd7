//! The reconciliation engine: the state each node should have, the
//! transition that merges it with what the scheduler observed, and the
//! changes to issues that follow; the pass over every node is in `pass`.
use vstd::prelude::*;

mod pass;

pub use pass::{first_report, first_status, pbs_sync, reported_final, Outcome};

use crate::cluster::topology::Topology;
use crate::effects::{Action, Command, Notice};
use crate::entities::comment;
use crate::entities::issue;
use crate::entities::issue::{IssueStatus, ToOffline};
use crate::entities::target;
use crate::entities::target::TargetStatus;
use crate::facts::{lemma_handled_extend, lemma_targets_extended_trans};
use crate::query::{is_selection, lemma_selection_step};
use crate::store::{Store, Write};

verus! {

/// Which open issues a lookup is after.
#[derive(Clone, Copy, Debug, PartialEq, Eq, Structural)]
pub enum Want {
    /// Every open issue.
    Any,
    /// Open issues that take something offline.
    Offlining,
    /// Open issues of exactly this scope.
    Scope(ToOffline),
}

/// An issue whose `to_offline` is `t` is of the kind `w`.
pub open spec fn wanted(w: Want, t: Option<ToOffline>) -> bool {
    match w {
        Want::Any => true,
        Want::Offlining => t is Some,
        Want::Scope(s) => t == Some(s),
    }
}

/// Issue `i` is open, raised against `name`, and of the kind `w`.
pub open spec fn open_wanted(db: &Store, i: int, name: Seq<char>, w: Want) -> bool {
    db.open_on(i, name) && wanted(w, db.issues@[i].to_offline)
}

/// Some open issue of the kind `w` is raised against `name`.
pub open spec fn has_open(db: &Store, name: Seq<char>, w: Want) -> bool {
    exists|i: int| #[trigger] open_wanted(db, i, name, w)
}

/// `k` is the first position of `names` whose node has an open issue of
/// scope `s`.
pub open spec fn first_flagged(db: &Store, names: Seq<Seq<char>>, s: ToOffline, k: int) -> bool {
    &&& 0 <= k < names.len()
    &&& has_open(db, names[k], Want::Scope(s))
    &&& forall|j: int| 0 <= j < k ==> !has_open(db, #[trigger] names[j], Want::Scope(s))
}

/// Some node of `names` has an open issue of scope `s`.
pub open spec fn any_flagged(db: &Store, names: Seq<Seq<char>>, s: ToOffline) -> bool {
    exists|k: int| 0 <= k < names.len() && has_open(db, #[trigger] names[k], Want::Scope(s))
}

/// A sibling of `name` has an open issue that takes its siblings offline.
pub open spec fn sibling_flagged(db: &Store, topo: &Topology, name: Seq<char>) -> bool {
    any_flagged(db, topo.spec_siblings(name), ToOffline::Siblings)
}

/// A cousin of `name` has an open issue that takes its cousins offline.
pub open spec fn cousin_flagged(db: &Store, topo: &Topology, name: Seq<char>) -> bool {
    any_flagged(db, topo.spec_cousins(name), ToOffline::Cousins)
}

/// The status the node named `name` should have, from open issues and
/// topology; the first rule that applies wins.
pub open spec fn desired_status(db: &Store, topo: &Topology, name: Seq<char>) -> TargetStatus {
    if !topo.is_real(name) {
        TargetStatus::Offline
    } else if has_open(db, name, Want::Offlining) {
        TargetStatus::Offline
    } else if sibling_flagged(db, topo, name) {
        TargetStatus::Offline
    } else if cousin_flagged(db, topo, name) {
        TargetStatus::Offline
    } else if has_open(db, name, Want::Any) {
        TargetStatus::Down
    } else {
        TargetStatus::Online
    }
}

/// `k` is the first issue that is open on `name` and of the kind `w`.
pub open spec fn first_open_wanted(db: &Store, name: Seq<char>, w: Want, k: int) -> bool {
    &&& open_wanted(db, k, name, w)
    &&& forall|j: int| 0 <= j < k ==> !#[trigger] open_wanted(db, j, name, w)
}

/// The first open issue of the kind `w` raised against `name`.
pub fn first_open(db: &Store, name: &str, w: Want) -> (r: Option<usize>)
    requires
        db.wf(),
    ensures
        match r {
            Some(k) => first_open_wanted(db, name@, w, k as int),
            None => !has_open(db, name@, w),
        },
{
    let t = match target::Entity::find_by_name(&db.targets, name) {
        Some(t) => t,
        None => {
            proof {
                db.lemma_no_issue_on_absent(name@);
            }
            return None;
        },
    };
    let id = db.targets[t].id;
    proof {
        db.lemma_issue_on_named(t as int, name@);
    }
    let mut i: usize = 0;
    while i < db.issues.len()
        invariant
            db.wf(),
            t < db.targets@.len(),
            id == db.targets@[t as int].id,
            db.targets@[t as int].name@ == name@,
            forall|j: int| #[trigger]
                db.issue_on(j, name@) <==> db.issues@[j].target_id == db.targets@[t as int].id,
            i <= db.issues@.len(),
            forall|j: int| 0 <= j < i ==> !#[trigger] open_wanted(db, j, name@, w),
        decreases db.issues@.len() - i,
    {
        let s = db.issues[i].to_offline;
        let want = match w {
            Want::Any => true,
            Want::Offlining => s.is_some(),
            Want::Scope(x) => match s {
                Some(y) => x == y,
                None => false,
            },
        };
        if db.issues[i].target_id == id && db.issues[i].issue_status == IssueStatus::Open && want {
            return Some(i);
        }
        i = i + 1;
    }
    None
}

/// Whether some node of `names` has an open issue of scope `s`, and the
/// first such node.
fn first_flagged_in(db: &Store, names: &Vec<String>, s: ToOffline) -> (r: Option<usize>)
    requires
        db.wf(),
    ensures
        match r {
            Some(k) => first_flagged(db, names@.map_values(|n: String| n@), s, k as int),
            None => !any_flagged(db, names@.map_values(|n: String| n@), s),
        },
{
    let ghost v = names@.map_values(|n: String| n@);
    let mut m: usize = 0;
    while m < names.len()
        invariant
            db.wf(),
            v == names@.map_values(|n: String| n@),
            m <= names@.len(),
            forall|j: int| 0 <= j < m ==> !has_open(db, #[trigger] v[j], Want::Scope(s)),
        decreases names@.len() - m,
    {
        if first_open(db, names[m].as_str(), Want::Scope(s)).is_some() {
            return Some(m);
        }
        m = m + 1;
    }
    None
}

/// `comment` gives the reason for the desired status of `name`: that it is
/// no real node; the title of the first open issue on it that takes
/// something offline; the first flagged sibling or cousin, so named; the
/// title of its first open issue; or nothing when it should be `Online`.
pub open spec fn explains(db: &Store, topo: &Topology, name: Seq<char>, comment: Seq<char>) -> bool {
    if !topo.is_real(name) {
        comment == "not a real node"@
    } else if has_open(db, name, Want::Offlining) {
        exists|k: int|
            first_open_wanted(db, name, Want::Offlining, k) && comment == db.issues@[k].title@
    } else if sibling_flagged(db, topo, name) {
        exists|k: int|
            first_flagged(db, topo.spec_siblings(name), ToOffline::Siblings, k) && comment
                == topo.spec_siblings(name)[k] + " sibling"@
    } else if cousin_flagged(db, topo, name) {
        exists|k: int|
            first_flagged(db, topo.spec_cousins(name), ToOffline::Cousins, k) && comment
                == topo.spec_cousins(name)[k] + " cousin"@
    } else if has_open(db, name, Want::Any) {
        exists|k: int| first_open_wanted(db, name, Want::Any, k) && comment == db.issues@[k].title@
    } else {
        comment.len() == 0
    }
}

/// The status the node named `target` should have, and why: the title of
/// the deciding issue, the flagged sibling or cousin, or that the name is
/// no real node. `Draining` and `Unknown` are never desired.
pub fn desired_state(target: &str, db: &Store, cluster: &Topology) -> (r: (TargetStatus, String))
    requires
        db.wf(),
        cluster.wf(),
    ensures
        r.0 == desired_status(db, cluster, target@),
        explains(db, cluster, target@, r.1@),
{
    if !cluster.real_node(target) {
        return (TargetStatus::Offline, String::from_str("not a real node"));
    }
    if let Some(k) = first_open(db, target, Want::Offlining) {
        return (TargetStatus::Offline, db.issues[k].title.clone());
    }
    let sibs = cluster.siblings(target);
    if let Some(k) = first_flagged_in(db, &sibs, ToOffline::Siblings) {
        return (TargetStatus::Offline, sibs[k].clone().concat(" sibling"));
    }
    let cousins = cluster.cousins(target);
    if let Some(k) = first_flagged_in(db, &cousins, ToOffline::Cousins) {
        return (TargetStatus::Offline, cousins[k].clone().concat(" cousin"));
    }
    if let Some(k) = first_open(db, target, Want::Any) {
        return (TargetStatus::Down, db.issues[k].title.clone());
    }
    (TargetStatus::Online, String::new())
}

/// What a transition asks to be done besides storing the final state.
#[derive(Clone, Copy, Debug, PartialEq, Eq, Structural)]
pub enum Effect {
    Nothing,
    /// Open an issue, without offline scope, titled by the observed comment.
    OpenIssue,
    /// Take the node offline through the scheduler and say so.
    OfflineNode,
    /// Close every open issue on the node and say so.
    CloseIssues,
}

/// The final state and effect for a node that should be `desired` and was
/// observed `observed`.
pub open spec fn spec_transition(desired: TargetStatus, observed: TargetStatus) -> (
    TargetStatus,
    Effect,
) {
    match desired {
        TargetStatus::Online => if observed == TargetStatus::Online {
            (TargetStatus::Online, Effect::Nothing)
        } else {
            (observed, Effect::OpenIssue)
        },
        TargetStatus::Offline => match observed {
            TargetStatus::Draining => (TargetStatus::Draining, Effect::Nothing),
            TargetStatus::Offline => (TargetStatus::Offline, Effect::Nothing),
            TargetStatus::Down => (TargetStatus::Offline, Effect::OfflineNode),
            _ => (TargetStatus::Draining, Effect::OfflineNode),
        },
        _ => if observed == TargetStatus::Online {
            (TargetStatus::Online, Effect::CloseIssues)
        } else {
            (observed, Effect::Nothing)
        },
    }
}

/// A status that can be desired.
pub open spec fn desirable(s: TargetStatus) -> bool {
    s == TargetStatus::Online || s == TargetStatus::Offline || s == TargetStatus::Down
}

/// A status that can be observed.
pub open spec fn observable(s: TargetStatus) -> bool {
    s != TargetStatus::Unknown
}

/// The transition table.
pub fn transition(desired: TargetStatus, observed: TargetStatus) -> (r: (TargetStatus, Effect))
    requires
        desirable(desired),
        observable(observed),
    ensures
        r == spec_transition(desired, observed),
{
    match desired {
        TargetStatus::Online => if observed == TargetStatus::Online {
            (TargetStatus::Online, Effect::Nothing)
        } else {
            (observed, Effect::OpenIssue)
        },
        TargetStatus::Offline => match observed {
            TargetStatus::Draining => (TargetStatus::Draining, Effect::Nothing),
            TargetStatus::Offline => (TargetStatus::Offline, Effect::Nothing),
            TargetStatus::Down => (TargetStatus::Offline, Effect::OfflineNode),
            _ => (TargetStatus::Draining, Effect::OfflineNode),
        },
        _ => if observed == TargetStatus::Online {
            (TargetStatus::Online, Effect::CloseIssues)
        } else {
            (observed, Effect::Nothing)
        },
    }
}

/// The write that creates the target named `name`, when `db` does not
/// hold it.
pub open spec fn created_writes(db: &Store, name: Seq<char>) -> Seq<Write> {
    if db.holds_target(name) {
        Seq::empty()
    } else {
        seq![Write::CreateTarget { id: db.next_target_id }]
    }
}

/// The writes of closing the issues at `sel`, in order: each closure, then
/// its comment, whose identifiers count up from `first`.
pub open spec fn closing_writes(issues: Seq<issue::Model>, sel: Seq<usize>, first: i32) -> Seq<Write>
    decreases sel.len(),
{
    if sel.len() == 0 {
        Seq::empty()
    } else {
        closing_writes(issues, sel.drop_last(), first) + seq![
            Write::CloseIssue { id: issues[sel.last() as int].id },
            Write::AddComment { id: (first + sel.len() - 1) as i32 },
        ]
    }
}

/// `db1` holds the issues of `db0`, in order and on the same targets, and
/// maybe more after them.
pub open spec fn issues_grown(db0: &Store, db1: &Store) -> bool {
    &&& db0.issues@.len() <= db1.issues@.len()
    &&& forall|i: int|
        0 <= i < db0.issues@.len() ==> #[trigger] db1.issues@[i].target_id == db0.issues@[i].target_id
}

/// The issues raised against `x` in `db0` are unchanged in `db1`, and no
/// issue added since is raised against `x`.
pub open spec fn issues_on_kept(db0: &Store, db1: &Store, x: Seq<char>) -> bool {
    &&& forall|i: int|
        0 <= i < db0.issues@.len() && #[trigger] db0.issue_on(i, x) ==> db1.issues@[i] == db0.issues@[i]
    &&& forall|i: int| db0.issues@.len() <= i < db1.issues@.len() ==> !#[trigger] db1.issue_on(i, x)
}

/// `db1` holds the targets of `db0`, with the same names and identifiers,
/// followed by new ones whose identifiers `db0` never handed out; no
/// identifier counter went back.
pub open spec fn targets_extended(db0: &Store, db1: &Store) -> bool {
    &&& db0.targets@.len() <= db1.targets@.len()
    &&& forall|t: int|
        0 <= t < db0.targets@.len() ==> #[trigger] db1.targets@[t].name@ == db0.targets@[t].name@
            && db1.targets@[t].id == db0.targets@[t].id
    &&& forall|t: int|
        db0.targets@.len() <= t < db1.targets@.len() ==> #[trigger] db1.targets@[t].id
            >= db0.next_target_id
    &&& db0.next_target_id <= db1.next_target_id
    &&& db0.next_issue_id <= db1.next_issue_id
    &&& db0.next_comment_id <= db1.next_comment_id
}

/// The identifiers an opened issue needs are left: its own, and its
/// target's when that target is not stored yet.
pub open spec fn can_open(db: &Store, name: Seq<char>) -> bool {
    db.next_issue_id < i32::MAX && (db.holds_target(name) || db.next_target_id < i32::MAX)
}

/// `db1` is `db0` with one issue appended at `k`: open, raised against
/// `name`, with the scope, title and description given.
pub open spec fn issue_added(
    db0: &Store,
    db1: &Store,
    name: Seq<char>,
    k: int,
    to_offline: Option<ToOffline>,
    title: Seq<char>,
    description: Seq<char>,
) -> bool {
    &&& k == db0.issues@.len()
    &&& db1.issues@.drop_last() == db0.issues@
    &&& db1.issues@.len() == k + 1
    &&& db1.open_on(k, name)
    &&& db1.issues@[k].to_offline == to_offline
    &&& db1.issues@[k].title@ == title
    &&& db1.issues@[k].description@ == description
}

/// Opens an issue against `target`, creating the target when it is not
/// stored, and tells the operators. `None`, with nothing changed, when
/// `target` is no real node or no identifier is left.
pub fn issue_open(
    target: &str,
    title: &str,
    description: &str,
    to_offline: Option<ToOffline>,
    operator: &str,
    now: i64,
    db: &mut Store,
    cluster: &Topology,
    actions: &mut Vec<Action>,
) -> (r: Option<usize>)
    requires
        old(db).wf(),
        cluster.wf(),
    ensures
        final(db).wf(),
        r is None <==> !cluster.is_real(target@) || !can_open(old(db), target@),
        r is None ==> *final(db) == *old(db) && final(actions)@ == old(actions)@,
        targets_extended(old(db), final(db)),
        forall|t: int|
            0 <= t < old(db).targets@.len() ==> #[trigger] final(db).targets@[t]
                == old(db).targets@[t],
        forall|t: int|
            old(db).targets@.len() <= t < final(db).targets@.len() ==> (
            #[trigger] final(db).targets@[t]).name@ == target@ && final(db).targets@[t].status
                == TargetStatus::Online,
        final(db).comments@ == old(db).comments@,
        final(db).next_comment_id == old(db).next_comment_id,
        old(db).pending@.is_prefix_of(final(db).pending@),
        old(actions)@.is_prefix_of(final(actions)@),
        match r {
            Some(k) => {
                &&& issue_added(
                    old(db),
                    final(db),
                    target@,
                    k as int,
                    to_offline,
                    title@,
                    description@,
                )
                &&& final(db).issues@[k as int].created_by@ == operator@
                &&& final(db).issues@[k as int].created_at == now
                &&& final(db).issues@[k as int].assigned_to is None
                &&& !final(db).issues@[k as int].enforce_down
                &&& final(db).issues@[k as int].id == old(db).next_issue_id
                &&& final(db).next_issue_id == old(db).next_issue_id + 1
                &&& final(db).pending@ == old(db).pending@ + created_writes(old(db), target@) + seq![
                    Write::OpenIssue { id: old(db).next_issue_id },
                ]
                &&& final(actions)@.len() == old(actions)@.len() + 1
                &&& final(actions)@.drop_last() == old(actions)@
                &&& final(actions)@.last() matches Action::Notify(
                    Notice::IssueOpened { operator: o, target: t, title: ti },
                ) && o@ == operator@ && t@ == target@ && ti@ == title@
            },
            None => true,
        },
{
    if !cluster.real_node(target) || db.next_issue_id == i32::MAX {
        return None;
    }
    let ghost db0 = *db;
    let t = match db.find_or_create(target) {
        Some(t) => t,
        None => return None,
    };
    proof {
        if db0.holds_target(target@) {
            assert(db.targets@.len() == db0.targets@.len());
        } else {
            assert(t == db0.targets@.len());
        }
    }
    let id = db.next_issue_id;
    let issue = issue::Model {
        assigned_to: None,
        created_at: now,
        created_by: String::from_str(operator),
        description: String::from_str(description),
        to_offline,
        enforce_down: false,
        id,
        issue_status: IssueStatus::Open,
        target_id: db.targets[t].id,
        title: String::from_str(title),
    };
    db.issues.push(issue);
    db.next_issue_id = id + 1;
    db.pending.push(Write::OpenIssue { id });
    actions.push(
        Action::Notify(
            Notice::IssueOpened {
                operator: String::from_str(operator),
                target: String::from_str(target),
                title: String::from_str(title),
            },
        ),
    );
    proof {
        assert(db.issues@.drop_last() =~= db0.issues@);
        assert(db.issue_on(db.issues@.len() - 1, target@));
        assert(db0.pending@.is_prefix_of(db.pending@)) by {
            assert(db.pending@.subrange(0, db0.pending@.len() as int) =~= db0.pending@);
        }
        assert(actions@.subrange(0, old(actions)@.len() as int) =~= old(actions)@);
        assert(db.pending@ =~= db0.pending@ + created_writes(&db0, target@) + seq![
            Write::OpenIssue { id: db0.next_issue_id },
        ]);
    }
    Some(db.issues.len() - 1)
}

/// The text of the comment left on an issue closed because its node was
/// found up.
pub open spec fn audit_text() -> Seq<char> {
    "node found up, assuming issue is resolved"@
}

/// `c` records that the issue with identifier `issue_id` was closed
/// because its node was found up.
pub open spec fn is_audit(c: comment::Model, issue_id: i32, now: i64) -> bool {
    &&& c.issue_id == issue_id
    &&& c.created_by@ == "ctt"@
    &&& c.comment@ == audit_text()
    &&& c.created_at == now
}

/// `i1` is `i0` closed.
pub open spec fn closed(i0: issue::Model, i1: issue::Model) -> bool {
    i1 == issue::Model { issue_status: IssueStatus::Closed, ..i0 }
}

/// `db1` is `db0` with every open issue on `name` closed, one audit comment
/// appended for each, in the order of `sel`, the positions of those issues.
pub open spec fn issues_closed(db0: &Store, db1: &Store, name: Seq<char>, sel: Seq<usize>, now: i64) -> bool {
    &&& is_selection(sel, db0.issues@.len() as int, |i: int| db0.open_on(i, name))
    &&& db1.issues@.len() == db0.issues@.len()
    &&& forall|i: int|
        0 <= i < db0.issues@.len() ==> if db0.open_on(i, name) {
            closed(db0.issues@[i], #[trigger] db1.issues@[i])
        } else {
            db1.issues@[i] == db0.issues@[i]
        }
    &&& db1.comments@.len() == db0.comments@.len() + sel.len()
    &&& db1.comments@.subrange(0, db0.comments@.len() as int) == db0.comments@
    &&& forall|k: int|
        0 <= k < sel.len() ==> is_audit(
            #[trigger] db1.comments@[db0.comments@.len() + k],
            db0.issues@[sel[k] as int].id,
            now,
        ) && db1.comments@[db0.comments@.len() + k].id == db0.next_comment_id + k
    &&& db1.next_comment_id == db0.next_comment_id + sel.len()
}

/// Enough comment identifiers are left to annotate every stored issue.
pub open spec fn comment_room(db: &Store) -> bool {
    db.next_comment_id as int + db.issues@.len() <= i32::MAX
}

/// Closes every open issue on the stored target `target`, appending to each an audit comment.
/// `None`, with nothing changed, when the comment identifiers left might not
/// suffice.
pub fn close_open_issues(target: &str, now: i64, db: &mut Store) -> (r: Option<Vec<usize>>)
    requires
        old(db).wf(),
        old(db).holds_target(target@),
    ensures
        final(db).wf(),
        r is None <==> !comment_room(old(db)),
        r is None ==> *final(db) == *old(db),
        old(db).pending@.is_prefix_of(final(db).pending@),
        final(db).targets@ == old(db).targets@,
        final(db).next_target_id == old(db).next_target_id,
        final(db).next_issue_id == old(db).next_issue_id,
        match r {
            Some(sel) => issues_closed(old(db), final(db), target@, sel@, now) && final(db).pending@
                == old(db).pending@ + closing_writes(old(db).issues@, sel@, old(db).next_comment_id),
            None => true,
        },
{
    let room: i64 = i32::MAX as i64 - db.next_comment_id as i64;
    if db.issues.len() as u64 > room as u64 {
        return None;
    }
    let ghost db0 = *db;
    let ghost p = |i: int| db0.open_on(i, target@);
    let id = match target::Entity::find_by_name(&db.targets, target) {
        Some(t) => {
            proof {
                db.lemma_issue_on_named(t as int, target@);
            }
            Some(db.targets[t].id)
        },
        None => None,
    };
    let mut sel: Vec<usize> = Vec::new();
    let mut i: usize = 0;
    while i < db.issues.len()
        invariant
            db0.wf(),
            comment_room(&db0),
            p == (|i: int| db0.open_on(i, target@)),
            match id {
                Some(x) => forall|j: int| #[trigger]
                    db0.issue_on(j, target@) <==> db0.issues@[j].target_id == x,
                None => forall|j: int| !#[trigger] db0.issue_on(j, target@),
            },
            i <= db.issues@.len(),
            is_selection(sel@, i as int, p),
            sel@.len() <= i,
            db.targets@ == db0.targets@,
            db.issues@.len() == db0.issues@.len(),
            forall|j: int|
                0 <= j < db0.issues@.len() ==> if j < i && db0.open_on(j, target@) {
                    closed(db0.issues@[j], #[trigger] db.issues@[j])
                } else {
                    db.issues@[j] == db0.issues@[j]
                },
            db.comments@.len() == db0.comments@.len() + sel@.len(),
            db.comments@.subrange(0, db0.comments@.len() as int) == db0.comments@,
            forall|k: int|
                0 <= k < sel@.len() ==> is_audit(
                    #[trigger] db.comments@[db0.comments@.len() + k],
                    db0.issues@[sel@[k] as int].id,
                    now,
                ) && db.comments@[db0.comments@.len() + k].id == db0.next_comment_id + k,
            db.next_target_id == db0.next_target_id,
            db.next_issue_id == db0.next_issue_id,
            db.next_comment_id == db0.next_comment_id + sel@.len(),
            db0.pending@.is_prefix_of(db.pending@),
            db.pending@ == db0.pending@ + closing_writes(db0.issues@, sel@, db0.next_comment_id),
        decreases db.issues@.len() - i,
    {
        proof {
            lemma_selection_step(sel@, i as int, p);
        }
        let hit = match id {
            Some(x) => db.issues[i].target_id == x && db.issues[i].issue_status
                == IssueStatus::Open,
            None => false,
        };
        if hit {
            let ghost before = db.comments@;
            let ghost pend = db.pending@;
            let issue_id = db.issues[i].id;
            db.issues[i].issue_status = IssueStatus::Closed;
            let cid = db.next_comment_id;
            db.comments.push(
                comment::Model {
                    id: cid,
                    issue_id,
                    created_by: String::from_str("ctt"),
                    comment: String::from_str("node found up, assuming issue is resolved"),
                    created_at: now,
                },
            );
            db.next_comment_id = cid + 1;
            db.pending.push(Write::CloseIssue { id: issue_id });
            db.pending.push(Write::AddComment { id: cid });
            let ghost sel0 = sel@;
            sel.push(i);
            proof {
                assert(sel@.drop_last() =~= sel0);
                assert(db0.issues@[i as int].id == issue_id);
                assert(db.pending@ =~= db0.pending@ + closing_writes(db0.issues@, sel@, db0.next_comment_id));
                assert(db.comments@.subrange(0, db0.comments@.len() as int) =~= before.subrange(
                    0,
                    db0.comments@.len() as int,
                ));
                assert(db.pending@.subrange(0, pend.len() as int) =~= pend);
                assert(db0.pending@.is_prefix_of(db.pending@)) by {
                    assert(db.pending@.subrange(0, db0.pending@.len() as int) =~= pend.subrange(
                        0,
                        db0.pending@.len() as int,
                    ));
                }
            }
        }
        i = i + 1;
    }
    proof {
        assert forall|j: int| 0 <= j < db.targets@.len() implies #[trigger] db.targets@[j].id
            < db.next_target_id by {}
        assert forall|j: int| 0 <= j < db.comments@.len() implies #[trigger] db.comments@[j].id
            < db.next_comment_id by {
            if j < db0.comments@.len() {
                assert(db.comments@[j] == db.comments@.subrange(0, db0.comments@.len() as int)[j]);
            } else {
                let k = j - db0.comments@.len();
                assert(db.comments@[db0.comments@.len() + k].id == db0.next_comment_id + k);
            }
        }
        assert forall|j: int| 0 <= j < db.issues@.len() implies #[trigger] db.issues@[j].id
            < db.next_issue_id && db.issues@[j].target_id < db.next_target_id by {
            assert(db0.issues@[j].id < db0.next_issue_id);
        }
    }
    Some(sel)
}

/// The final state of a node observed `observed`.
pub open spec fn final_state(db: &Store, topo: &Topology, name: Seq<char>, observed: TargetStatus) -> TargetStatus {
    spec_transition(desired_status(db, topo, name), observed).0
}

/// The effect asked for a node observed `observed`.
pub open spec fn effect_of(db: &Store, topo: &Topology, name: Seq<char>, observed: TargetStatus) -> Effect {
    spec_transition(desired_status(db, topo, name), observed).1
}

/// What handling the transition of the node `name`, observed `observed`
/// with the scheduler comment `comment`, did to the issues and comments.
pub open spec fn handled(
    db0: &Store,
    db1: &Store,
    topo: &Topology,
    name: Seq<char>,
    comment: Seq<char>,
    observed: TargetStatus,
    now: i64,
) -> bool {
    &&& targets_extended(db0, db1)
    &&& match effect_of(db0, topo, name, observed) {
        Effect::OpenIssue => {
            &&& can_open(db0, name) ==> issue_added(
                db0,
                db1,
                name,
                db0.issues@.len() as int,
                None,
                comment,
                comment,
            ) && db1.issues@[db0.issues@.len() as int].created_by@ == "ctt"@
                && db1.issues@[db0.issues@.len() as int].created_at == now
            &&& !can_open(db0, name) ==> db1.issues@ == db0.issues@
            &&& db1.comments@ == db0.comments@
        },
        Effect::CloseIssues => {
            &&& comment_room(db0) ==> exists|sel: Seq<usize>| issues_closed(db0, db1, name, sel, now)
            &&& !comment_room(db0) ==> db1.issues@ == db0.issues@ && db1.comments@ == db0.comments@
        },
        _ => db1.issues@ == db0.issues@ && db1.comments@ == db0.comments@,
    }
}

/// Stores `status` as the status of the target named `target`, creating
/// that target when it is not stored. `false`, with nothing changed, when no
/// identifier is left for it.
fn store_status(target: &str, status: TargetStatus, db: &mut Store) -> (ok: bool)
    requires
        old(db).wf(),
    ensures
        final(db).wf(),
        targets_extended(old(db), final(db)),
        final(db).issues@ == old(db).issues@,
        final(db).comments@ == old(db).comments@,
        final(db).next_issue_id == old(db).next_issue_id,
        final(db).next_comment_id == old(db).next_comment_id,
        old(db).pending@.is_prefix_of(final(db).pending@),
        forall|t: int|
            0 <= t < old(db).targets@.len() ==> #[trigger] final(db).targets@[t]
                == old(db).targets@[t] || (final(db).targets@[t].name@ == target@
                && final(db).targets@[t].status == status),
        forall|t: int|
            old(db).targets@.len() <= t < final(db).targets@.len() ==> (
            #[trigger] final(db).targets@[t]).name@ == target@,
        ok <==> old(db).holds_target(target@) || old(db).next_target_id < i32::MAX,
        !ok ==> *final(db) == *old(db),
        ok && !old(db).holds_target(target@) ==> final(db).targets@.len() == old(db).targets@.len() + 1
            && final(db).targets@.last().id == old(db).next_target_id,
        ok ==> exists|t: int|
            0 <= t < final(db).targets@.len() && #[trigger] final(db).targets@[t].name@ == target@
                && final(db).targets@[t].status == status && final(db).pending@ == old(db).pending@
                + created_writes(old(db), target@) + seq![
                Write::SetStatus { target_id: final(db).targets@[t].id, status },
            ],
{
    let ghost db0 = *db;
    match db.find_or_create(target) {
        Some(k) => {
            proof {
                if db0.holds_target(target@) {
                    assert(db.targets@.len() == db0.targets@.len());
                } else {
                    assert(k == db0.targets@.len());
                }
            }
            let ghost pend = db.pending@;
            proof {
                assert(pend =~= db0.pending@ + created_writes(&db0, target@));
            }
            db.targets[k].status = status;
            let tid = db.targets[k].id;
            db.pending.push(Write::SetStatus { target_id: tid, status });
            proof {
                assert(db.pending@ =~= db0.pending@ + created_writes(&db0, target@) + seq![
                    Write::SetStatus { target_id: db.targets@[k as int].id, status },
                ]);
                assert(db.pending@.subrange(0, pend.len() as int) =~= pend);
                assert(db0.pending@.is_prefix_of(db.pending@)) by {
                    assert(db.pending@.subrange(0, db0.pending@.len() as int) =~= pend.subrange(
                        0,
                        db0.pending@.len() as int,
                    ));
                }
                assert(db.targets@[k as int].name@ == target@);
            }
            true
        },
        None => false,
    }
}

/// `mid` is the list of writes `db0.pending` grows to by the effect the
/// transition of `name`, observed `observed`, asks for: the target and
/// issue an opened issue needs, the closures and comments of closed
/// issues, or nothing.
pub open spec fn effect_pending(db0: &Store, mid: Seq<Write>, topo: &Topology, name: Seq<char>, observed: TargetStatus) -> bool {
    match effect_of(db0, topo, name, observed) {
        Effect::OpenIssue => if can_open(db0, name) {
            mid == db0.pending@ + created_writes(db0, name) + seq![
                Write::OpenIssue { id: db0.next_issue_id },
            ]
        } else {
            mid == db0.pending@
        },
        Effect::CloseIssues => if comment_room(db0) {
            exists|sel: Seq<usize>|
                is_selection(sel, db0.issues@.len() as int, |i: int| db0.open_on(i, name)) && mid
                    == db0.pending@ + #[trigger] closing_writes(db0.issues@, sel, db0.next_comment_id)
        } else {
            mid == db0.pending@
        },
        _ => mid == db0.pending@,
    }
}

/// `pending` is `mid` followed by the write of the status `r` of the
/// target named `name` (and the creation of that target, where needed)
/// exactly when `changed`, identifiers permitting (`room`).
pub open spec fn status_pending(
    mid: Seq<Write>,
    db: &Store,
    name: Seq<char>,
    r: TargetStatus,
    changed: bool,
    room: bool,
) -> bool {
    if changed && room {
        exists|t: int|
            0 <= t < db.targets@.len() && #[trigger] db.targets@[t].name@ == name
                && db.targets@[t].status == r && db.pending@.last() == Write::SetStatus {
                target_id: db.targets@[t].id,
                status: r,
            } && (db.pending@.drop_last() == mid || db.pending@.drop_last() == mid.push(
                Write::CreateTarget { id: db.targets@[t].id },
            ))
    } else {
        db.pending@ == mid
    }
}

/// Runs the transition of the node `target`, last stored `old_state` and
/// now observed `new_state` with the scheduler comment `new_comment`: opens
/// or closes issues, asks for the scheduler command and notices, and stores
/// the final state of a real node when it differs from `old_state`.
#[verifier::spinoff_prover]
#[verifier::rlimit(80)]
pub fn handle_transition(
    target: &str,
    new_comment: &str,
    old_state: TargetStatus,
    new_state: TargetStatus,
    now: i64,
    db: &mut Store,
    cluster: &Topology,
    actions: &mut Vec<Action>,
) -> (r: TargetStatus)
    requires
        old(db).wf(),
        cluster.wf(),
        observable(new_state),
    ensures
        final(db).wf(),
        r == final_state(old(db), cluster, target@, new_state),
        handled(old(db), final(db), cluster, target@, new_comment@, new_state, now),
        old(db).pending@.is_prefix_of(final(db).pending@),
        exists|mid: Seq<Write>|
            #[trigger] effect_pending(old(db), mid, cluster, target@, new_state) && status_pending(
                mid,
                final(db),
                target@,
                r,
                r != old_state && cluster.is_real(target@),
                old(db).holds_target(target@) || old(db).next_target_id < i32::MAX,
            ),
        old(actions)@.is_prefix_of(final(actions)@),
        final(db).targets@.len() > old(db).targets@.len() ==> cluster.is_real(target@),
        forall|t: int|
            0 <= t < old(db).targets@.len() ==> #[trigger] final(db).targets@[t]
                == old(db).targets@[t] || (final(db).targets@[t].name@ == target@
                && final(db).targets@[t].status == r && r != old_state),
        forall|t: int|
            old(db).targets@.len() <= t < final(db).targets@.len() ==> (
            #[trigger] final(db).targets@[t]).name@ == target@,
        r != old_state && cluster.is_real(target@) && (old(db).holds_target(target@)
            || old(db).next_target_id < i32::MAX) ==> exists|t: int|
            0 <= t < final(db).targets@.len() && #[trigger] final(db).targets@[t].name@ == target@
                && final(db).targets@[t].status == r,
        match effect_of(old(db), cluster, target@, new_state) {
            Effect::Nothing => final(actions)@ == old(actions)@,
            Effect::OpenIssue => {
                &&& !can_open(old(db), target@) ==> final(actions)@ == old(actions)@
                &&& can_open(old(db), target@) ==> {
                    &&& final(actions)@.len() == old(actions)@.len() + 1
                    &&& final(actions)@.drop_last() == old(actions)@
                    &&& final(actions)@.last() matches Action::Notify(
                        Notice::IssueOpened { operator: o, target: t, title: ti },
                    ) && o@ == "ctt"@ && t@ == target@ && ti@ == new_comment@
                }
            },
            Effect::OfflineNode => {
                &&& final(actions)@.len() == old(actions)@.len() + 2
                &&& final(actions)@.subrange(0, old(actions)@.len() as int) == old(actions)@
                &&& final(actions)@[old(actions)@.len() as int] matches Action::Command(
                    Command::Offline { target: t, comment: c },
                ) && t@ == target@ && explains(old(db), cluster, target@, c@)
                &&& final(actions)@.last() matches Action::Notify(Notice::NodeOffline { target: t })
                    && t@ == target@
            },
            Effect::CloseIssues => {
                &&& final(actions)@.len() == old(actions)@.len() + 1
                &&& final(actions)@.drop_last() == old(actions)@
                &&& final(actions)@.last() matches Action::Notify(Notice::IssuesClosed { target: t })
                    && t@ == target@
            },
        },
{
    let ghost db0 = *db;
    let (expected, comment) = desired_state(target, db, cluster);
    let (final_state, effect) = transition(expected, new_state);
    match effect {
        Effect::OpenIssue => {
            let opened = issue_open(target, new_comment, new_comment, None, "ctt", now, db, cluster, actions);
        },
        Effect::OfflineNode => {
            actions.push(
                Action::Command(Command::Offline { target: String::from_str(target), comment }),
            );
            actions.push(Action::Notify(Notice::NodeOffline { target: String::from_str(target) }));
            proof {
                assert(actions@.subrange(0, old(actions)@.len() as int) =~= old(actions)@);
            }
        },
        Effect::CloseIssues => {
            actions.push(Action::Notify(Notice::IssuesClosed { target: String::from_str(target) }));
            proof {
                assert(actions@.subrange(0, old(actions)@.len() as int) =~= old(actions)@);
            }
            proof {
                assert(has_open(&db0, target@, Want::Any));
                let i = choose|i: int| #[trigger] open_wanted(&db0, i, target@, Want::Any);
                assert(db0.issue_on(i, target@));
            }
            let closed = close_open_issues(target, now, db);
            proof {
                if let Some(sel) = closed {
                    assert(issues_closed(&db0, db, target@, sel@, now));
                }
            }
        },
        Effect::Nothing => {},
    }
    let ghost db_mid = *db;
    proof {
        assert(handled(&db0, &db_mid, cluster, target@, new_comment@, new_state, now));
    }
    let ghost mid = db.pending@;
    proof {
        if effect == Effect::CloseIssues && comment_room(&db0) {
            let sel = choose|sel: Seq<usize>|
                issues_closed(&db0, &db_mid, target@, sel, now) && db_mid.pending@ == db0.pending@
                    + closing_writes(db0.issues@, sel, db0.next_comment_id);
            assert(effect_pending(&db0, mid, cluster, target@, new_state));
        }
        assert(effect_pending(&db0, mid, cluster, target@, new_state));
    }
    if old_state != final_state && cluster.real_node(target) {
        let ok = store_status(target, final_state, db);
        proof {
            if db0.holds_target(target@) || db0.next_target_id < i32::MAX {
                assert(db_mid.holds_target(target@) || db_mid.next_target_id < i32::MAX) by {
                    if db0.holds_target(target@) {
                        let t = choose|t: int| 0 <= t < db0.targets@.len() && #[trigger] db0.targets@[t].name@ == target@;
                        assert(db_mid.targets@[t].name@ == target@);
                    }
                }
                let t = choose|t: int|
                    0 <= t < db.targets@.len() && #[trigger] db.targets@[t].name@ == target@
                        && db.targets@[t].status == final_state && db.pending@ == db_mid.pending@
                        + created_writes(&db_mid, target@) + seq![
                        Write::SetStatus { target_id: db.targets@[t].id, status: final_state },
                    ];
                assert(db.pending@.drop_last() =~= db_mid.pending@ + created_writes(&db_mid, target@));
                if !db_mid.holds_target(target@) {
                    let u = db_mid.targets@.len() as int;
                    assert(db.targets@[u].name@ == target@);
                    if t < u {
                        assert(db.targets@[t].name@ != db.targets@[u].name@);
                    }
                    assert(t == u);
                    assert(db.targets@[t].id == db_mid.next_target_id);
                    assert(db.pending@.drop_last() =~= mid.push(Write::CreateTarget { id: db.targets@[t].id }));
                } else {
                    assert(db.pending@.drop_last() =~= mid);
                }
                assert(db.pending@.last() == Write::SetStatus { target_id: db.targets@[t].id, status: final_state });
                assert(status_pending(mid, db, target@, final_state, true, true));
            }
        }
    }
    proof {
        assert(status_pending(
            mid,
            db,
            target@,
            final_state,
            final_state != old_state && cluster.is_real(target@),
            db0.holds_target(target@) || db0.next_target_id < i32::MAX,
        ));
        lemma_handled_extend(&db0, &db_mid, db, cluster, target@, new_comment@, new_state, now);
        lemma_targets_extended_trans(&db0, &db_mid, db);
    }
    final_state
}

/// The name and stored status of every target, in order.
pub fn get_ctt_nodes(db: &Store) -> (r: Vec<(String, TargetStatus)>)
    ensures
        r@.len() == db.targets@.len(),
        forall|i: int|
            0 <= i < r@.len() ==> (#[trigger] r@[i]).0@ == db.targets@[i].name@ && r@[i].1
                == db.targets@[i].status,
{
    let mut r: Vec<(String, TargetStatus)> = Vec::new();
    let mut i: usize = 0;
    while i < db.targets.len()
        invariant
            i <= db.targets@.len(),
            r@.len() == i,
            forall|k: int|
                0 <= k < i ==> (#[trigger] r@[k]).0@ == db.targets@[k].name@ && r@[k].1
                    == db.targets@[k].status,
        decreases db.targets@.len() - i,
    {
        r.push((db.targets[i].name.clone(), db.targets[i].status));
        i = i + 1;
    }
    r
}

} // verus!
