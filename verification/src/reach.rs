//! The dependency graph of a concept map: which concept depends on which,
//! and which can be reached from which along dependencies.

use crate::map::MapView;
use vstd::prelude::*;
use vstd::set_lib::*;

verus! {

impl MapView {
    /// Whether the concept at offset `i` lists the concept at offset `j`
    /// among its dependencies.
    pub open spec fn edge(self, i: int, j: int) -> bool {
        &&& 0 <= i < self.concepts.len()
        &&& 0 <= j < self.concepts.len()
        &&& self.concepts[i].dependencies.contains(self.concepts[j].name)
    }

    /// Whether `b` is reached from `a` along at least one and at most
    /// `steps` dependencies.
    pub open spec fn reaches_in(self, a: int, b: int, steps: nat) -> bool
        decreases steps,
    {
        steps > 0 && (self.edge(a, b) || exists|d: int| #[trigger]
            self.edge(a, d) && self.reaches_in(d, b, (steps - 1) as nat))
    }

    /// Whether `b` is a transitive dependency of `a`: reached from it along
    /// one dependency or more.
    pub open spec fn reaches(self, a: int, b: int) -> bool {
        exists|steps: nat| self.reaches_in(a, b, steps)
    }

    /// The place of the concept at offset `p` in the order.
    pub open spec fn rank(self, p: int) -> int {
        self.order.index_of(p)
    }

    /// A dependency is a transitive dependency.
    pub proof fn lemma_reach_edge(self, a: int, b: int)
        requires
            self.edge(a, b),
        ensures
            self.reaches(a, b),
    {
        assert(self.reaches_in(a, b, 1));
    }

    /// A transitive dependency of a dependency is a transitive dependency.
    pub proof fn lemma_reach_step(self, a: int, d: int, b: int)
        requires
            self.edge(a, d),
            self.reaches(d, b),
        ensures
            self.reaches(a, b),
    {
        let steps = choose|steps: nat| self.reaches_in(d, b, steps);
        assert(self.reaches_in(a, b, steps + 1));
    }

    /// A transitive dependency is a dependency or a transitive dependency of
    /// one.
    pub proof fn lemma_reach_split(self, a: int, b: int)
        requires
            self.reaches(a, b),
        ensures
            self.edge(a, b) || exists|d: int| #[trigger] self.edge(a, d) && self.reaches(d, b),
    {
        let steps = choose|steps: nat| self.reaches_in(a, b, steps);
        if !self.edge(a, b) {
            let d = choose|d: int| #[trigger]
                self.edge(a, d) && self.reaches_in(d, b, (steps - 1) as nat);
            assert(self.edge(a, d) && self.reaches(d, b));
        }
    }

    /// A complete order holds every concept.
    pub proof fn lemma_covers(self, i: int)
        requires
            self.ordered(),
            self.complete(),
            0 <= i < self.concepts.len(),
        ensures
            self.order.contains(i),
            0 <= self.rank(i) < self.order.len(),
            self.order[self.rank(i)] == i,
    {
        let n = self.concepts.len() as int;
        let placed = self.order.to_set();
        let all = set_int_range(0, n);
        assert(self.order.no_duplicates());
        self.order.unique_seq_to_set();
        lemma_int_range(0, n);
        assert(placed.subset_of(all)) by {
            assert forall|x: int| placed.contains(x) implies all.contains(x) by {
                let k = choose|k: int| 0 <= k < self.order.len() && self.order[k] == x;
                assert(0 <= self.order[k] < n);
            }
        }
        lemma_len_subset(placed, all);
        lemma_subset_equality(placed, all);
        assert(all.contains(i));
        assert(placed.contains(i));
    }

    /// A placed concept stands after each of its dependencies, which are
    /// placed too.
    pub proof fn lemma_edge_rank(self, p: int, q: int)
        requires
            self.distinct(),
            self.ordered(),
            self.order.contains(p),
            self.edge(p, q),
        ensures
            self.order.contains(q),
            0 <= self.rank(q) < self.rank(p) < self.order.len(),
    {
        let k = self.rank(p);
        let deps = self.concepts[p].dependencies;
        let m = choose|m: int| 0 <= m < deps.len() && deps[m] == self.concepts[q].name;
        assert(self.placed_before(self.concepts[self.order[k]].dependencies[m], k));
        let j = choose|j: int|
            0 <= j < k && j < self.order.len() && 0 <= (#[trigger] self.order[j])
                < self.concepts.len() && self.concepts[self.order[j]].name == deps[m];
        self.lemma_position(deps[m], q);
        self.lemma_position(deps[m], self.order[j]);
        assert(self.order[j] == q);
        let r = self.rank(q);
        if r < j {
            assert(self.order[r] != self.order[j]);
        } else if j < r {
            assert(self.order[j] != self.order[r]);
        }
    }

    /// A placed concept stands after each of its transitive dependencies,
    /// which are placed too.
    pub proof fn lemma_reach_rank(self, a: int, b: int, steps: nat)
        requires
            self.distinct(),
            self.ordered(),
            self.order.contains(a),
            self.reaches_in(a, b, steps),
        ensures
            self.order.contains(b),
            0 <= self.rank(b) < self.rank(a) < self.order.len(),
        decreases steps,
    {
        if self.edge(a, b) {
            self.lemma_edge_rank(a, b);
        } else {
            let d = choose|d: int| #[trigger]
                self.edge(a, d) && self.reaches_in(d, b, (steps - 1) as nat);
            self.lemma_edge_rank(a, d);
            self.lemma_reach_rank(d, b, (steps - 1) as nat);
        }
    }
}

} // verus!
