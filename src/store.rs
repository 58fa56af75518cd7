//! An in-memory image of the tracking database for one reconciliation
//! pass, with the writes made to it kept in order for the caller to apply.
use vstd::prelude::*;

use crate::entities::comment;
use crate::entities::issue;
use crate::entities::issue::IssueStatus;
use crate::entities::target;
use crate::entities::target::TargetStatus;

verus! {

/// One write made to the image, to be applied to the database.
#[derive(Clone, Copy, Debug, PartialEq, Eq, Structural)]
pub enum Write {
    /// The target with this identifier was created.
    CreateTarget { id: i32 },
    /// The target with this identifier got a new status.
    SetStatus { target_id: i32, status: TargetStatus },
    /// The issue with this identifier was opened.
    OpenIssue { id: i32 },
    /// The issue with this identifier was closed.
    CloseIssue { id: i32 },
    /// The comment with this identifier was added.
    AddComment { id: i32 },
}

/// Targets, issues and comments, with the identifiers the next records get.
pub struct Store {
    pub targets: Vec<target::Model>,
    pub issues: Vec<issue::Model>,
    pub comments: Vec<comment::Model>,
    /// Writes made since the image was taken, oldest first.
    pub pending: Vec<Write>,
    pub next_target_id: i32,
    pub next_issue_id: i32,
    pub next_comment_id: i32,
}

/// Rows that make a well-formed image: target names and identifiers are
/// unique, and no identifier in use is the largest `i32`, so that each
/// table has a next identifier to hand out.
pub open spec fn loadable(
    targets: Seq<target::Model>,
    issues: Seq<issue::Model>,
    comments: Seq<comment::Model>,
) -> bool {
    &&& forall|i: int, j: int|
        0 <= i < j < targets.len() ==> #[trigger] targets[i].name@ != #[trigger] targets[j].name@
    &&& forall|i: int, j: int|
        0 <= i < j < targets.len() ==> #[trigger] targets[i].id != #[trigger] targets[j].id
    &&& forall|i: int| 0 <= i < targets.len() ==> #[trigger] targets[i].id < i32::MAX
    &&& forall|i: int|
        0 <= i < issues.len() ==> #[trigger] issues[i].target_id < i32::MAX && issues[i].id
            < i32::MAX
    &&& forall|i: int| 0 <= i < comments.len() ==> #[trigger] comments[i].id < i32::MAX
}

/// Target names and identifiers are unique.
pub open spec fn targets_unique(targets: Seq<target::Model>) -> bool {
    &&& forall|i: int, j: int|
        0 <= i < j < targets.len() ==> #[trigger] targets[i].name@ != #[trigger] targets[j].name@
    &&& forall|i: int, j: int|
        0 <= i < j < targets.len() ==> #[trigger] targets[i].id != #[trigger] targets[j].id
}

/// Whether target names and identifiers are unique.
fn unique_targets(targets: &Vec<target::Model>) -> (r: bool)
    ensures
        r == targets_unique(targets@),
{
    let n = targets.len();
    let mut j: usize = 0;
    while j < n
        invariant
            n == targets@.len(),
            j <= n,
            forall|a: int, b: int|
                0 <= a < b < j ==> #[trigger] targets@[a].name@ != #[trigger] targets@[b].name@,
            forall|a: int, b: int|
                0 <= a < b < j ==> #[trigger] targets@[a].id != #[trigger] targets@[b].id,
        decreases n - j,
    {
        let mut i: usize = 0;
        while i < j
            invariant
                n == targets@.len(),
                i <= j < n,
                forall|a: int| 0 <= a < i ==> targets@[a].name@ != targets@[j as int].name@,
                forall|a: int| 0 <= a < i ==> targets@[a].id != targets@[j as int].id,
            decreases j - i,
        {
            if crate::text::str_eq(targets[i].name.as_str(), targets[j].name.as_str()) {
                return false;
            }
            if targets[i].id == targets[j].id {
                return false;
            }
            i = i + 1;
        }
        j = j + 1;
    }
    true
}

impl Store {
    /// Target names and identifiers are unique, and every identifier in use
    /// lies below the next one handed out.
    pub open spec fn wf(&self) -> bool {
        &&& forall|i: int, j: int|
            0 <= i < j < self.targets@.len() ==> #[trigger] self.targets@[i].name@
                != #[trigger] self.targets@[j].name@
        &&& forall|i: int, j: int|
            0 <= i < j < self.targets@.len() ==> #[trigger] self.targets@[i].id
                != #[trigger] self.targets@[j].id
        &&& forall|i: int|
            0 <= i < self.targets@.len() ==> #[trigger] self.targets@[i].id < self.next_target_id
        &&& forall|i: int|
            0 <= i < self.issues@.len() ==> #[trigger] self.issues@[i].target_id
                < self.next_target_id
        &&& forall|i: int|
            0 <= i < self.issues@.len() ==> #[trigger] self.issues@[i].id < self.next_issue_id
        &&& forall|i: int|
            0 <= i < self.comments@.len() ==> #[trigger] self.comments@[i].id
                < self.next_comment_id
    }

    /// An image of the given rows, with no pending write. Each next
    /// identifier is one more than the largest in use, and 1 when none is
    /// positive. `None` when the rows are not `loadable`.
    pub fn new(
        targets: Vec<target::Model>,
        issues: Vec<issue::Model>,
        comments: Vec<comment::Model>,
    ) -> (r: Option<Store>)
        ensures
            r is None <==> !loadable(targets@, issues@, comments@),
            match r {
                Some(s) => {
                    &&& s.wf()
                    &&& s.targets@ == targets@
                    &&& s.issues@ == issues@
                    &&& s.comments@ == comments@
                    &&& s.pending@.len() == 0
                    &&& s.next_target_id == 1 || (exists|k: int|
                        0 <= k < targets@.len() && s.next_target_id == #[trigger] targets@[k].id + 1)
                        || (exists|k: int|
                        0 <= k < issues@.len() && s.next_target_id == #[trigger] issues@[k].target_id
                            + 1)
                    &&& s.next_issue_id == 1 || exists|k: int|
                        0 <= k < issues@.len() && s.next_issue_id == #[trigger] issues@[k].id + 1
                    &&& s.next_comment_id == 1 || exists|k: int|
                        0 <= k < comments@.len() && s.next_comment_id == #[trigger] comments@[k].id + 1
                },
                None => true,
            },
    {
        if !unique_targets(&targets) {
            return None;
        }
        let mut next_target_id: i32 = 1;
        let mut next_issue_id: i32 = 1;
        let mut next_comment_id: i32 = 1;
        let mut i: usize = 0;
        while i < targets.len()
            invariant
                targets_unique(targets@),
                i <= targets@.len(),
                1 <= next_target_id,
                forall|k: int| 0 <= k < i ==> #[trigger] targets@[k].id < next_target_id,
                forall|k: int| 0 <= k < i ==> #[trigger] targets@[k].id < i32::MAX,
                next_target_id == 1 || exists|k: int|
                    0 <= k < targets@.len() && next_target_id == #[trigger] targets@[k].id + 1,
            decreases targets@.len() - i,
        {
            if targets[i].id == i32::MAX {
                return None;
            }
            if targets[i].id >= next_target_id {
                next_target_id = targets[i].id + 1;
            }
            i = i + 1;
        }
        let mut i: usize = 0;
        while i < issues.len()
            invariant
                targets_unique(targets@),
                forall|k: int| 0 <= k < targets@.len() ==> #[trigger] targets@[k].id < i32::MAX,
                i <= issues@.len(),
                1 <= next_target_id,
                1 <= next_issue_id,
                next_target_id == 1 || (exists|k: int|
                    0 <= k < targets@.len() && next_target_id == #[trigger] targets@[k].id + 1)
                    || (exists|k: int|
                    0 <= k < issues@.len() && next_target_id == #[trigger] issues@[k].target_id + 1),
                next_issue_id == 1 || exists|k: int|
                    0 <= k < issues@.len() && next_issue_id == #[trigger] issues@[k].id + 1,
                forall|k: int| 0 <= k < targets@.len() ==> #[trigger] targets@[k].id < next_target_id,
                forall|k: int|
                    0 <= k < i ==> #[trigger] issues@[k].target_id < next_target_id && issues@[k].id
                        < next_issue_id,
                forall|k: int|
                    0 <= k < i ==> #[trigger] issues@[k].target_id < i32::MAX && issues@[k].id
                        < i32::MAX,
            decreases issues@.len() - i,
        {
            if issues[i].target_id == i32::MAX || issues[i].id == i32::MAX {
                return None;
            }
            if issues[i].target_id >= next_target_id {
                next_target_id = issues[i].target_id + 1;
            }
            if issues[i].id >= next_issue_id {
                next_issue_id = issues[i].id + 1;
            }
            i = i + 1;
        }
        let mut i: usize = 0;
        while i < comments.len()
            invariant
                targets_unique(targets@),
                forall|k: int| 0 <= k < targets@.len() ==> #[trigger] targets@[k].id < i32::MAX,
                forall|k: int|
                    0 <= k < issues@.len() ==> #[trigger] issues@[k].target_id < i32::MAX
                        && issues@[k].id < i32::MAX,
                forall|k: int| 0 <= k < targets@.len() ==> #[trigger] targets@[k].id < next_target_id,
                forall|k: int|
                    0 <= k < issues@.len() ==> #[trigger] issues@[k].target_id < next_target_id
                        && issues@[k].id < next_issue_id,
                i <= comments@.len(),
                1 <= next_comment_id,
                next_target_id == 1 || (exists|k: int|
                    0 <= k < targets@.len() && next_target_id == #[trigger] targets@[k].id + 1)
                    || (exists|k: int|
                    0 <= k < issues@.len() && next_target_id == #[trigger] issues@[k].target_id + 1),
                next_issue_id == 1 || exists|k: int|
                    0 <= k < issues@.len() && next_issue_id == #[trigger] issues@[k].id + 1,
                next_comment_id == 1 || exists|k: int|
                    0 <= k < comments@.len() && next_comment_id == #[trigger] comments@[k].id + 1,
                forall|k: int| 0 <= k < i ==> #[trigger] comments@[k].id < next_comment_id,
            decreases comments@.len() - i,
        {
            if comments[i].id == i32::MAX {
                return None;
            }
            if comments[i].id >= next_comment_id {
                next_comment_id = comments[i].id + 1;
            }
            i = i + 1;
        }
        let s = Store {
            targets,
            issues,
            comments,
            pending: Vec::new(),
            next_target_id,
            next_issue_id,
            next_comment_id,
        };
        assert forall|i: int| 0 <= i < s.issues@.len() implies #[trigger] s.issues@[i].id
            < s.next_issue_id by {
            assert(issues@[i].target_id < next_target_id);
        }
        Some(s)
    }

    /// A target named `name` is stored.
    pub open spec fn holds_target(&self, name: Seq<char>) -> bool {
        exists|t: int| 0 <= t < self.targets@.len() && #[trigger] self.targets@[t].name@ == name
    }

    /// Issue `i` is raised against the target named `name`.
    pub open spec fn issue_on(&self, i: int, name: Seq<char>) -> bool {
        exists|t: int|
            0 <= t < self.targets@.len() && #[trigger] self.targets@[t].name@ == name
                && self.issues@[i].target_id == self.targets@[t].id
    }

    /// Issue `i` is open and raised against the target named `name`.
    pub open spec fn open_on(&self, i: int, name: Seq<char>) -> bool {
        &&& 0 <= i < self.issues@.len()
        &&& self.issue_on(i, name)
        &&& self.issues@[i].issue_status == IssueStatus::Open
    }

    /// Once the target named `name` is found at `k`, the issues on it are
    /// those that carry its identifier.
    pub proof fn lemma_issue_on_named(&self, k: int, name: Seq<char>)
        requires
            self.wf(),
            0 <= k < self.targets@.len(),
            self.targets@[k].name@ == name,
        ensures
            forall|i: int| #[trigger]
                self.issue_on(i, name) <==> self.issues@[i].target_id == self.targets@[k].id,
    {
        assert forall|i: int| #[trigger] self.issue_on(i, name) implies self.issues@[i].target_id
            == self.targets@[k].id by {
            let t = choose|t: int|
                0 <= t < self.targets@.len() && #[trigger] self.targets@[t].name@ == name
                    && self.issues@[i].target_id == self.targets@[t].id;
            if t != k {
                if t < k {
                    assert(self.targets@[t].name@ != self.targets@[k].name@);
                } else {
                    assert(self.targets@[k].name@ != self.targets@[t].name@);
                }
            }
        }
    }

    /// No issue is raised against a target that is not stored.
    pub proof fn lemma_no_issue_on_absent(&self, name: Seq<char>)
        requires
            !self.holds_target(name),
        ensures
            forall|i: int| !#[trigger] self.issue_on(i, name),
    {
    }

    /// The stored target named `name`, created with status `Online` when
    /// there is none. `None` when no identifier is left for it.
    pub fn find_or_create(&mut self, name: &str) -> (r: Option<usize>)
        requires
            old(self).wf(),
        ensures
            final(self).wf(),
            final(self).issues@ == old(self).issues@,
            final(self).comments@ == old(self).comments@,
            old(self).holds_target(name@) ==> *final(self) == *old(self),
            r is None <==> !old(self).holds_target(name@) && old(self).next_target_id == i32::MAX,
            r is None ==> *final(self) == *old(self),
            match r {
                Some(k) => k < final(self).targets@.len() && final(self).targets@[k as int].name@
                    == name@,
                None => true,
            },
            r is Some && !old(self).holds_target(name@) ==> {
                &&& r matches Some(k) && k == old(self).targets@.len()
                &&& final(self).targets@.len() == old(self).targets@.len() + 1
                &&& final(self).targets@.drop_last() == old(self).targets@
                &&& final(self).targets@.last().id == old(self).next_target_id
                &&& final(self).targets@.last().status == TargetStatus::Online
                &&& final(self).pending@ == old(self).pending@.push(
                    Write::CreateTarget { id: old(self).next_target_id },
                )
                &&& final(self).next_target_id == old(self).next_target_id + 1
                &&& final(self).next_issue_id == old(self).next_issue_id
                &&& final(self).next_comment_id == old(self).next_comment_id
            },
    {
        match target::Entity::find_by_name(&self.targets, name) {
            Some(k) => Some(k),
            None => {
                if self.next_target_id == i32::MAX {
                    return None;
                }
                let id = self.next_target_id;
                let t = target::Model {
                    id,
                    name: String::from_str(name),
                    status: TargetStatus::Online,
                };
                let ghost old_targets = self.targets@;
                self.targets.push(t);
                self.next_target_id = id + 1;
                self.pending.push(Write::CreateTarget { id });
                proof {
                    assert(self.targets@.drop_last() =~= old_targets);
                    assert forall|i: int, j: int|
                        0 <= i < j < self.targets@.len() implies #[trigger] self.targets@[i].name@
                        != #[trigger] self.targets@[j].name@ by {
                        if j == old_targets.len() {
                            assert(old_targets[i].name@ != name@);
                        } else {
                            assert(old_targets[i].name@ != old_targets[j].name@);
                        }
                    }
                    assert forall|i: int, j: int|
                        0 <= i < j < self.targets@.len() implies #[trigger] self.targets@[i].id
                        != #[trigger] self.targets@[j].id by {
                        if j == old_targets.len() {
                            assert(old_targets[i].id < id);
                        } else {
                            assert(old_targets[i].id != old_targets[j].id);
                        }
                    }
                }
                Some(self.targets.len() - 1)
            },
        }
    }
}

} // verus!
