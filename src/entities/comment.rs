//! Comments: an append-only audit trail attached to issues.
use vstd::prelude::*;

verus! {

/// One note on an issue.
pub struct Model {
    pub id: i32,
    pub issue_id: i32,
    pub created_by: String,
    pub comment: String,
    /// Seconds since the Unix epoch.
    pub created_at: i64,
}

/// The comment table.
pub struct Entity;

impl Entity {
    /// The first comment whose identifier is `id`.
    pub fn find_by_id(rows: &Vec<Model>, id: i32) -> (r: Option<usize>)
        ensures
            match r {
                Some(k) => k < rows@.len() && rows@[k as int].id == id && forall|j: int|
                    0 <= j < k ==> #[trigger] rows@[j].id != id,
                None => forall|j: int| 0 <= j < rows@.len() ==> #[trigger] rows@[j].id != id,
            },
    {
        let mut i: usize = 0;
        while i < rows.len()
            invariant
                i <= rows@.len(),
                forall|j: int| 0 <= j < i ==> #[trigger] rows@[j].id != id,
            decreases rows@.len() - i,
        {
            if rows[i].id == id {
                return Some(i);
            }
            i = i + 1;
        }
        None
    }
}

} // verus!
