//! Targets: the managed nodes, each with its last stored status.
use vstd::prelude::*;

use crate::text::str_eq;

verus! {

/// Status of a node as stored in the tracking database.
#[derive(Clone, Copy, Debug, PartialEq, Eq, Structural)]
pub enum TargetStatus {
    Online,
    Draining,
    Offline,
    Down,
    /// Never observed: reserved for targets the scheduler did not report.
    Unknown,
}

/// One managed node.
pub struct Model {
    pub id: i32,
    /// Scheduler host name; unique among targets.
    pub name: String,
    pub status: TargetStatus,
}

/// What a target owns.
pub enum Relation {
    Issue,
}

/// The target table.
pub struct Entity;

/// Position of the first row named `name` (`rows.len()` when there is none).
pub open spec fn first_named(rows: Seq<Model>, name: Seq<char>, k: int) -> bool {
    &&& 0 <= k <= rows.len()
    &&& k < rows.len() ==> rows[k].name@ == name
    &&& forall|j: int| 0 <= j < k ==> #[trigger] rows[j].name@ != name
}

impl Entity {
    /// The first target named `name`.
    pub fn find_by_name(rows: &Vec<Model>, name: &str) -> (r: Option<usize>)
        ensures
            match r {
                Some(k) => k < rows@.len() && first_named(rows@, name@, k as int),
                None => first_named(rows@, name@, rows@.len() as int),
            },
    {
        let mut i: usize = 0;
        while i < rows.len()
            invariant
                i <= rows@.len(),
                forall|j: int| 0 <= j < i ==> #[trigger] rows@[j].name@ != name@,
            decreases rows@.len() - i,
        {
            if str_eq(rows[i].name.as_str(), name) {
                return Some(i);
            }
            i = i + 1;
        }
        None
    }

    /// The first target whose identifier is `id`.
    pub fn find_by_id(rows: &Vec<Model>, id: i32) -> (r: Option<usize>)
        ensures
            match r {
                Some(k) => k < rows@.len() && rows@[k as int].id == id && forall|j: int|
                    0 <= j < k ==> #[trigger] rows@[j].id != id,
                None => forall|j: int| 0 <= j < rows@.len() ==> #[trigger] rows@[j].id != id,
            },
    {
        let mut i: usize = 0;
        while i < rows.len()
            invariant
                i <= rows@.len(),
                forall|j: int| 0 <= j < i ==> #[trigger] rows@[j].id != id,
            decreases rows@.len() - i,
        {
            if rows[i].id == id {
                return Some(i);
            }
            i = i + 1;
        }
        None
    }
}

} // verus!
