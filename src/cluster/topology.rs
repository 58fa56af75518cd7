//! Which names denote real nodes, and which nodes share a card (siblings)
//! or a blade (cousins).
use vstd::prelude::*;

use crate::text::str_eq;

verus! {

/// A real node and where it sits.
pub struct TopoNode {
    pub name: String,
    /// The card (enclosure) holding the node.
    pub card: u32,
    /// The blade (chassis) holding the node; wider than a card.
    pub blade: u32,
}

/// The nodes of the cluster, in a fixed order.
pub struct Topology {
    pub nodes: Vec<TopoNode>,
}

/// The names of the nodes that satisfy `p`, in order.
pub open spec fn names_where(nodes: Seq<TopoNode>, p: spec_fn(TopoNode) -> bool) -> Seq<Seq<char>>
    decreases nodes.len(),
{
    if nodes.len() == 0 {
        Seq::empty()
    } else {
        let rest = names_where(nodes.drop_last(), p);
        if p(nodes.last()) {
            rest.push(nodes.last().name@)
        } else {
            rest
        }
    }
}

/// A name is listed exactly when some node that satisfies `p` has it.
pub proof fn lemma_names_where(nodes: Seq<TopoNode>, p: spec_fn(TopoNode) -> bool, x: Seq<char>)
    ensures
        names_where(nodes, p).contains(x) <==> exists|i: int|
            0 <= i < nodes.len() && p(nodes[i]) && #[trigger] nodes[i].name@ == x,
    decreases nodes.len(),
{
    if nodes.len() > 0 {
        let init = nodes.drop_last();
        lemma_names_where(init, p, x);
        if exists|i: int| 0 <= i < nodes.len() && p(nodes[i]) && #[trigger] nodes[i].name@ == x {
            let i = choose|i: int| 0 <= i < nodes.len() && p(nodes[i]) && #[trigger] nodes[i].name@ == x;
            if i < init.len() {
                assert(init[i] == nodes[i]);
            } else {
                assert(names_where(nodes, p).last() == x);
            }
        }
        if names_where(nodes, p).contains(x) && !names_where(init, p).contains(x) {
            assert(nodes[nodes.len() - 1].name@ == x);
        }
        if names_where(init, p).contains(x) {
            let i = choose|i: int| 0 <= i < init.len() && p(init[i]) && #[trigger] init[i].name@ == x;
            assert(nodes[i] == init[i]);
            let rest = names_where(init, p);
            let k = choose|k: int| 0 <= k < rest.len() && rest[k] == x;
            if p(nodes.last()) {
                assert(rest.push(nodes.last().name@)[k] == x);
            }
        }
    }
}

/// Nodes on card `c` other than the one named `name`.
pub open spec fn on_card(c: u32, name: Seq<char>) -> spec_fn(TopoNode) -> bool {
    |n: TopoNode| n.card == c && n.name@ != name
}

/// Nodes on blade `b` other than the one named `name`.
pub open spec fn on_blade(b: u32, name: Seq<char>) -> spec_fn(TopoNode) -> bool {
    |n: TopoNode| n.blade == b && n.name@ != name
}

impl Topology {
    /// Node names are unique.
    pub open spec fn wf(&self) -> bool {
        forall|i: int, j: int|
            0 <= i < j < self.nodes@.len() ==> #[trigger] self.nodes@[i].name@
                != #[trigger] self.nodes@[j].name@
    }

    /// `name` denotes a real node.
    pub open spec fn is_real(&self, name: Seq<char>) -> bool {
        exists|i: int| 0 <= i < self.nodes@.len() && #[trigger] self.nodes@[i].name@ == name
    }

    /// The node named `name`.
    pub open spec fn node_of(&self, name: Seq<char>) -> TopoNode
        recommends
            self.is_real(name),
    {
        self.nodes@[choose|i: int| 0 <= i < self.nodes@.len() && #[trigger] self.nodes@[i].name@ == name]
    }

    /// The other nodes on the card of `name`, in order; none for a name
    /// that is not a real node.
    pub open spec fn spec_siblings(&self, name: Seq<char>) -> Seq<Seq<char>> {
        if self.is_real(name) {
            names_where(self.nodes@, on_card(self.node_of(name).card, name))
        } else {
            Seq::empty()
        }
    }

    /// The other nodes on the blade of `name`, in order; none for a name
    /// that is not a real node.
    pub open spec fn spec_cousins(&self, name: Seq<char>) -> Seq<Seq<char>> {
        if self.is_real(name) {
            names_where(self.nodes@, on_blade(self.node_of(name).blade, name))
        } else {
            Seq::empty()
        }
    }

    /// A topology of `nodes`; `None` when two nodes share a name.
    pub fn new(nodes: Vec<TopoNode>) -> (r: Option<Topology>)
        ensures
            match r {
                Some(t) => t.wf() && t.nodes@ == nodes@,
                None => exists|i: int, j: int|
                    0 <= i < j < nodes@.len() && #[trigger] nodes@[i].name@ == #[trigger] nodes@[j].name@,
            },
    {
        let n = nodes.len();
        let mut j: usize = 0;
        while j < n
            invariant
                n == nodes@.len(),
                j <= n,
                forall|a: int, b: int|
                    0 <= a < b < j ==> #[trigger] nodes@[a].name@ != #[trigger] nodes@[b].name@,
            decreases n - j,
        {
            let mut i: usize = 0;
            while i < j
                invariant
                    n == nodes@.len(),
                    i <= j < n,
                    forall|a: int| 0 <= a < i ==> nodes@[a].name@ != nodes@[j as int].name@,
                decreases j - i,
            {
                if str_eq(nodes[i].name.as_str(), nodes[j].name.as_str()) {
                    assert(nodes@[i as int].name@ == nodes@[j as int].name@);
                    return None;
                }
                i = i + 1;
            }
            j = j + 1;
        }
        Some(Topology { nodes })
    }

    /// The node at `k` is the one `node_of` picks for its name.
    pub proof fn lemma_node_of(&self, k: int)
        requires
            self.wf(),
            0 <= k < self.nodes@.len(),
        ensures
            self.is_real(self.nodes@[k].name@),
            self.node_of(self.nodes@[k].name@) == self.nodes@[k],
    {
        let name = self.nodes@[k].name@;
        assert(self.nodes@[k].name@ == name);
        let c = choose|i: int| 0 <= i < self.nodes@.len() && #[trigger] self.nodes@[i].name@ == name;
        if c < k {
            assert(self.nodes@[c].name@ != self.nodes@[k].name@);
        } else if c > k {
            assert(self.nodes@[k].name@ != self.nodes@[c].name@);
        }
    }

    /// Being siblings is symmetric.
    pub proof fn lemma_siblings_symmetric(&self, a: Seq<char>, b: Seq<char>)
        requires
            self.wf(),
            self.spec_siblings(a).contains(b),
        ensures
            self.spec_siblings(b).contains(a),
    {
        assert(self.is_real(a));
        let p = on_card(self.node_of(a).card, a);
        lemma_names_where(self.nodes@, p, b);
        let j = choose|j: int| 0 <= j < self.nodes@.len() && p(self.nodes@[j]) && #[trigger] self.nodes@[j].name@ == b;
        let i = choose|i: int| 0 <= i < self.nodes@.len() && #[trigger] self.nodes@[i].name@ == a;
        self.lemma_node_of(i);
        self.lemma_node_of(j);
        let q = on_card(self.node_of(b).card, b);
        lemma_names_where(self.nodes@, q, a);
        assert(q(self.nodes@[i]));
    }

    /// Being cousins is symmetric.
    pub proof fn lemma_cousins_symmetric(&self, a: Seq<char>, b: Seq<char>)
        requires
            self.wf(),
            self.spec_cousins(a).contains(b),
        ensures
            self.spec_cousins(b).contains(a),
    {
        assert(self.is_real(a));
        let p = on_blade(self.node_of(a).blade, a);
        lemma_names_where(self.nodes@, p, b);
        let j = choose|j: int| 0 <= j < self.nodes@.len() && p(self.nodes@[j]) && #[trigger] self.nodes@[j].name@ == b;
        let i = choose|i: int| 0 <= i < self.nodes@.len() && #[trigger] self.nodes@[i].name@ == a;
        self.lemma_node_of(i);
        self.lemma_node_of(j);
        let q = on_blade(self.node_of(b).blade, b);
        lemma_names_where(self.nodes@, q, a);
        assert(q(self.nodes@[i]));
    }

    /// Position of the node named `name`.
    fn index_of(&self, name: &str) -> (r: Option<usize>)
        requires
            self.wf(),
        ensures
            r is None <==> !self.is_real(name@),
            match r {
                Some(k) => k < self.nodes@.len() && self.nodes@[k as int].name@ == name@
                    && self.node_of(name@) == self.nodes@[k as int],
                None => true,
            },
    {
        let mut i: usize = 0;
        while i < self.nodes.len()
            invariant
                self.wf(),
                i <= self.nodes@.len(),
                forall|j: int| 0 <= j < i ==> #[trigger] self.nodes@[j].name@ != name@,
            decreases self.nodes@.len() - i,
        {
            if str_eq(self.nodes[i].name.as_str(), name) {
                proof {
                    self.lemma_node_of(i as int);
                }
                return Some(i);
            }
            i = i + 1;
        }
        None
    }

    /// Whether `name` denotes a real node.
    pub fn real_node(&self, name: &str) -> (r: bool)
        requires
            self.wf(),
        ensures
            r == self.is_real(name@),
    {
        self.index_of(name).is_some()
    }

    /// The names of the nodes that share a card (`by_blade` false) or a
    /// blade (`by_blade` true) with the node at `k`, but for that node.
    fn group(&self, k: usize, by_blade: bool) -> (r: Vec<String>)
        requires
            k < self.nodes@.len(),
        ensures
            by_blade ==> r@.map_values(|s: String| s@) == names_where(
                self.nodes@,
                on_blade(self.nodes@[k as int].blade, self.nodes@[k as int].name@),
            ),
            !by_blade ==> r@.map_values(|s: String| s@) == names_where(
                self.nodes@,
                on_card(self.nodes@[k as int].card, self.nodes@[k as int].name@),
            ),
    {
        let ghost me = self.nodes@[k as int];
        let ghost p = if by_blade {
            on_blade(me.blade, me.name@)
        } else {
            on_card(me.card, me.name@)
        };
        let mut r: Vec<String> = Vec::new();
        let mut i: usize = 0;
        while i < self.nodes.len()
            invariant
                k < self.nodes@.len(),
                me == self.nodes@[k as int],
                i <= self.nodes@.len(),
                p == (if by_blade {
                    on_blade(me.blade, me.name@)
                } else {
                    on_card(me.card, me.name@)
                }),
                r@.map_values(|s: String| s@) == names_where(self.nodes@.subrange(0, i as int), p),
            decreases self.nodes@.len() - i,
        {
            let ghost pre = self.nodes@.subrange(0, i as int);
            let ghost next = self.nodes@.subrange(0, i + 1);
            assert(next.drop_last() =~= pre);
            assert(next.last() == self.nodes@[i as int]);
            let same = if by_blade {
                self.nodes[i].blade == self.nodes[k].blade
            } else {
                self.nodes[i].card == self.nodes[k].card
            };
            if same && !str_eq(self.nodes[i].name.as_str(), self.nodes[k].name.as_str()) {
                let ghost before = r@;
                r.push(self.nodes[i].name.clone());
                assert(r@.map_values(|s: String| s@) =~= before.map_values(|s: String| s@).push(
                    self.nodes@[i as int].name@,
                ));
            }
            i = i + 1;
        }
        assert(self.nodes@.subrange(0, self.nodes@.len() as int) =~= self.nodes@);
        r
    }

    /// The other nodes on the card of `name`, in order.
    pub fn siblings(&self, name: &str) -> (r: Vec<String>)
        requires
            self.wf(),
        ensures
            r@.map_values(|s: String| s@) == self.spec_siblings(name@),
    {
        match self.index_of(name) {
            Some(k) => self.group(k, false),
            None => {
                let r: Vec<String> = Vec::new();
                assert(r@.map_values(|s: String| s@) =~= Seq::<Seq<char>>::empty());
                r
            },
        }
    }

    /// The other nodes on the blade of `name`, in order.
    pub fn cousins(&self, name: &str) -> (r: Vec<String>)
        requires
            self.wf(),
        ensures
            r@.map_values(|s: String| s@) == self.spec_cousins(name@),
    {
        match self.index_of(name) {
            Some(k) => self.group(k, true),
            None => {
                let r: Vec<String> = Vec::new();
                assert(r@.map_values(|s: String| s@) =~= Seq::<Seq<char>>::empty());
                r
            },
        }
    }
}

} // verus!
