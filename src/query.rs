//! Row selections: the ascending positions of the rows that satisfy a filter.
use vstd::prelude::*;

verus! {

/// `r` lists, in ascending order and without repetition, exactly the
/// positions below `n` at which `p` holds.
pub open spec fn is_selection(r: Seq<usize>, n: int, p: spec_fn(int) -> bool) -> bool {
    &&& forall|k: int| #![trigger r[k]] 0 <= k < r.len() ==> (r[k] as int) < n && p(r[k] as int)
    &&& forall|i: int| 0 <= i < n && #[trigger] p(i) ==> exists|k: int| 0 <= k < r.len() && r[k] == i
    &&& forall|a: int, b: int| 0 <= a < b < r.len() ==> r[a] < r[b]
}

/// Extending a selection over `n` rows by row `n`.
pub proof fn lemma_selection_step(r: Seq<usize>, n: int, p: spec_fn(int) -> bool)
    requires
        is_selection(r, n, p),
        0 <= n < usize::MAX,
    ensures
        p(n) ==> is_selection(r.push(n as usize), n + 1, p),
        !p(n) ==> is_selection(r, n + 1, p),
{
    if p(n) {
        let r2 = r.push(n as usize);
        assert forall|i: int| 0 <= i < n + 1 && #[trigger] p(i) implies exists|k: int|
            0 <= k < r2.len() && r2[k] == i by {
            if i < n {
                let k = choose|k: int| 0 <= k < r.len() && r[k] == i;
                assert(r2[k] == i);
            } else {
                assert(r2[r.len() as int] == i);
            }
        }
        assert forall|k: int| 0 <= k < r2.len() implies (r2[k] as int) < n + 1 && p(
            r2[k] as int,
        ) by {
            if k < r.len() {
                assert(r2[k] == r[k]);
                assert(p(r[k] as int));
            } else {
                assert(r2[k] as int == n);
            }
        }
    } else {
        assert forall|i: int| 0 <= i < n + 1 && #[trigger] p(i) implies exists|k: int|
            0 <= k < r.len() && r[k] == i by {
            assert(i != n);
        }
    }
}

} // verus!
