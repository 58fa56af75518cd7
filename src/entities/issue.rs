//! Issues: tickets raised against targets, optionally scoped to take a
//! wider group of nodes out of service.
use vstd::prelude::*;

use crate::query::{is_selection, lemma_selection_step};
use crate::store::Store;
use crate::sync::targets_extended;
use crate::text::str_eq;

verus! {

/// Whether an issue still needs attention.
#[derive(Clone, Copy, Debug, PartialEq, Eq, Structural)]
pub enum IssueStatus {
    Open,
    Closed,
}

/// Which nodes an open issue takes out of service.
#[derive(Clone, Copy, Debug, PartialEq, Eq, Structural)]
pub enum ToOffline {
    /// The node the issue is raised against.
    Target,
    /// The nodes sharing the target's card.
    Siblings,
    /// The nodes sharing the target's blade.
    Cousins,
}

/// One ticket.
pub struct Model {
    pub assigned_to: Option<String>,
    /// Seconds since the Unix epoch.
    pub created_at: i64,
    pub created_by: String,
    pub description: String,
    /// `None`: the node is expected down, but is not taken offline.
    pub to_offline: Option<ToOffline>,
    /// Kept with the record; no decision reads it.
    pub enforce_down: bool,
    pub id: i32,
    pub issue_status: IssueStatus,
    pub target_id: i32,
    pub title: String,
}

/// What an issue relates to.
pub enum Relation {
    Comment,
    Target,
}

/// The issue table.
pub struct Entity;

impl Entity {
    /// The first issue whose identifier is `id`.
    pub fn find_by_id(rows: &Vec<Model>, id: i32) -> (r: Option<usize>)
        ensures
            match r {
                Some(k) => k < rows@.len() && rows@[k as int].id == id && forall|j: int|
                    0 <= j < k ==> #[trigger] rows@[j].id != id,
                None => forall|j: int| 0 <= j < rows@.len() ==> #[trigger] rows@[j].id != id,
            },
    {
        let mut i: usize = 0;
        while i < rows.len()
            invariant
                i <= rows@.len(),
                forall|j: int| 0 <= j < i ==> #[trigger] rows@[j].id != id,
            decreases rows@.len() - i,
        {
            if rows[i].id == id {
                return Some(i);
            }
            i = i + 1;
        }
        None
    }

    /// The issues raised against the target whose identifier is `target`.
    pub fn find_by_target(rows: &Vec<Model>, target: i32) -> (r: Vec<usize>)
        ensures
            is_selection(r@, rows@.len() as int, |i: int| rows@[i].target_id == target),
    {
        let ghost p = |i: int| rows@[i].target_id == target;
        let mut r: Vec<usize> = Vec::new();
        let mut i: usize = 0;
        while i < rows.len()
            invariant
                i <= rows@.len(),
                p == (|i: int| rows@[i].target_id == target),
                is_selection(r@, i as int, p),
            decreases rows@.len() - i,
        {
            proof {
                lemma_selection_step(r@, i as int, p);
            }
            if rows[i].target_id == target {
                r.push(i);
            }
            i = i + 1;
        }
        r
    }

    /// The issues raised against the target named `target`; a target of
    /// that name is created when there is none. `None` when it cannot be.
    pub fn find_by_target_name(db: &mut Store, target: &str) -> (r: Option<Vec<usize>>)
        requires
            old(db).wf(),
        ensures
            final(db).wf(),
            final(db).issues@ == old(db).issues@,
            final(db).comments@ == old(db).comments@,
            old(db).holds_target(target@) ==> *final(db) == *old(db),
            r is None <==> !old(db).holds_target(target@) && old(db).next_target_id == i32::MAX,
            r is Some ==> final(db).holds_target(target@),
            targets_extended(old(db), final(db)),
            !old(db).holds_target(target@) ==> forall|i: int|
                0 <= i < final(db).issues@.len() ==> !#[trigger] final(db).issue_on(i, target@),
            match r {
                Some(v) => is_selection(
                    v@,
                    final(db).issues@.len() as int,
                    |i: int| final(db).issue_on(i, target@),
                ),
                None => *final(db) == *old(db),
            },
    {
        let ghost db0 = *db;
        let k = match db.find_or_create(target) {
            Some(k) => k,
            None => return None,
        };
        proof {
            if !db0.holds_target(target@) {
                assert forall|i: int|
                    0 <= i < db.issues@.len() implies !#[trigger] db.issue_on(i, target@) by {
                    if db.issue_on(i, target@) {
                        let t = choose|t: int|
                            0 <= t < db.targets@.len() && #[trigger] db.targets@[t].name@ == target@
                                && db.issues@[i].target_id == db.targets@[t].id;
                        if t < db0.targets@.len() {
                            assert(db0.targets@[t] == db.targets@[t]);
                        } else {
                            assert(db0.issues@[i].target_id < db0.next_target_id);
                        }
                    }
                }
            }
        }
        let id = db.targets[k].id;
        let r = Entity::find_by_target(&db.issues, id);
        proof {
            db.lemma_issue_on_named(k as int, target@);
            let p = |i: int| db.issues@[i].target_id == id;
            let q = |i: int| db.issue_on(i, target@);
            assert(p =~= q);
        }
        Some(r)
    }

    /// The first open issue titled `title` raised against the target named
    /// `target`; a target of that name is created when there is none.
    pub fn already_open(target: &str, title: &str, db: &mut Store) -> (r: Option<usize>)
        requires
            old(db).wf(),
        ensures
            final(db).wf(),
            final(db).issues@ == old(db).issues@,
            final(db).comments@ == old(db).comments@,
            old(db).holds_target(target@) ==> *final(db) == *old(db),
            targets_extended(old(db), final(db)),
            old(db).holds_target(target@) || old(db).next_target_id < i32::MAX
                ==> final(db).holds_target(target@),
            !old(db).holds_target(target@) ==> r is None,
            match r {
                Some(k) => {
                    &&& k < final(db).issues@.len()
                    &&& final(db).open_on(k as int, target@)
                    &&& final(db).issues@[k as int].title@ == title@
                    &&& forall|j: int|
                        0 <= j < k ==> !(#[trigger] final(db).open_on(j, target@)
                            && final(db).issues@[j].title@ == title@)
                },
                None => forall|j: int|
                    0 <= j < final(db).issues@.len() ==> !(#[trigger] final(db).open_on(j, target@)
                        && final(db).issues@[j].title@ == title@),
            },
    {
        let sel = match Entity::find_by_target_name(db, target) {
            Some(v) => v,
            None => {
                proof {
                    db.lemma_no_issue_on_absent(target@);
                }
                return None;
            },
        };
        let ghost p = |i: int| db.issue_on(i, target@);
        let mut m: usize = 0;
        while m < sel.len()
            invariant
                db.wf(),
                db.issues@ == old(db).issues@,
                db.comments@ == old(db).comments@,
                old(db).holds_target(target@) ==> *db == *old(db),
                targets_extended(old(db), db),
                db.holds_target(target@),
                !old(db).holds_target(target@) ==> forall|i: int|
                    0 <= i < db.issues@.len() ==> !#[trigger] db.issue_on(i, target@),
                p == (|i: int| db.issue_on(i, target@)),
                is_selection(sel@, db.issues@.len() as int, p),
                m <= sel@.len(),
                forall|j: int|
                    0 <= j < (if m == 0 { 0 } else { sel@[m - 1] + 1 }) ==> !(
                    #[trigger] db.open_on(j, target@) && db.issues@[j].title@ == title@),
            decreases sel@.len() - m,
        {
            let k = sel[m];
            assert(p(k as int));
            proof {
                assert forall|j: int|
                    (if m == 0 { 0 } else { sel@[m - 1] + 1 }) <= j < k implies !(
                    #[trigger] db.open_on(j, target@)) by {
                    if db.open_on(j, target@) {
                        assert(p(j));
                        let t = choose|t: int| 0 <= t < sel@.len() && sel@[t] == j;
                        if t < m {
                            if t < m - 1 {
                                assert(sel@[t] < sel@[m - 1]);
                            }
                        } else if t > m {
                            assert(sel@[m as int] < sel@[t]);
                        }
                    }
                }
            }
            if db.issues[k].issue_status == IssueStatus::Open && str_eq(
                db.issues[k].title.as_str(),
                title,
            ) {
                return Some(k);
            }
            m = m + 1;
        }
        proof {
            assert forall|j: int|
                0 <= j < db.issues@.len() implies !(#[trigger] db.open_on(j, target@)
                && db.issues@[j].title@ == title@) by {
                if db.open_on(j, target@) && m > 0 && j >= sel@[m - 1] + 1 {
                    assert(p(j));
                    let t = choose|t: int| 0 <= t < sel@.len() && sel@[t] == j;
                    if t < m - 1 {
                        assert(sel@[t] < sel@[m - 1]);
                    }
                }
                if db.open_on(j, target@) && m == 0 {
                    assert(p(j));
                }
            }
        }
        None
    }
}

} // verus!
