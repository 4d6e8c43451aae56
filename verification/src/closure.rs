//! Transitive closures of dependencies: for a concept, every concept that
//! has to come before it. Closures are worked out by a depth-first descent
//! along the dependencies and remembered, so that each is worked out once.

use crate::map::{ConceptMap, MapView};
use crate::text::texts;
use vstd::prelude::*;

verus! {

/// Whether `bits` marks exactly the transitive dependencies of the concept
/// at offset `p`.
pub open spec fn marks_closure(v: MapView, p: int, bits: Seq<bool>) -> bool {
    &&& bits.len() == v.concepts.len()
    &&& forall|j: int| 0 <= j < bits.len() ==> (#[trigger] bits[j]) == v.reaches(p, j)
}

/// Whether `r` lists exactly the transitive dependencies of the concept at
/// offset `p`, by rising offset.
pub open spec fn is_closure(v: MapView, p: int, r: Seq<usize>) -> bool {
    &&& forall|a: int, b: int| 0 <= a < b < r.len() ==> (#[trigger] r[a]) < (#[trigger] r[b])
    &&& forall|a: int| 0 <= a < r.len() ==> v.reaches(p, (#[trigger] r[a]) as int)
    &&& forall|j: int| #[trigger] v.reaches(p, j) ==> 0 <= j <= usize::MAX && r.contains(j as usize)
}

/// Whether `r` lists exactly the members of `set`, by rising offset.
pub open spec fn lists(r: Seq<usize>, set: Set<int>) -> bool {
    &&& forall|a: int, b: int| 0 <= a < b < r.len() ==> (#[trigger] r[a]) < (#[trigger] r[b])
    &&& forall|a: int| 0 <= a < r.len() ==> set.contains((#[trigger] r[a]) as int)
    &&& forall|j: int| #[trigger] set.contains(j) ==> 0 <= j <= usize::MAX && r.contains(j as usize)
}

/// Whether the concept named `name` is the concept at offset `j` or has it
/// as a transitive dependency.
pub open spec fn via(v: MapView, name: Seq<char>, j: int) -> bool {
    v.position(name) == j || v.reaches(v.position(name), j)
}

/// Whether one of the first `k` dependencies of the concept at offset `p`
/// leads to the concept at offset `j`.
pub open spec fn covered(v: MapView, p: int, k: int, j: int) -> bool {
    exists|m: int|
        0 <= m < k && m < v.concepts[p].dependencies.len() && via(
            v,
            #[trigger] v.concepts[p].dependencies[m],
            j,
        )
}

impl MapView {
    /// In a complete order every dependency names a concept, and the concept
    /// that lists it depends on that one.
    pub proof fn lemma_dependency_resolves(self, p: int, m: int)
        requires
            self.distinct(),
            self.ordered(),
            self.complete(),
            0 <= p < self.concepts.len(),
            0 <= m < self.concepts[p].dependencies.len(),
        ensures
            self.has(self.concepts[p].dependencies[m]),
            self.edge(p, self.position(self.concepts[p].dependencies[m])),
            self.concepts[self.position(self.concepts[p].dependencies[m])].name
                == self.concepts[p].dependencies[m],
    {
        self.lemma_covers(p);
        let k = self.rank(p);
        let name = self.concepts[p].dependencies[m];
        assert(self.placed_before(self.concepts[self.order[k]].dependencies[m], k));
        let j = choose|j: int|
            0 <= j < k && j < self.order.len() && 0 <= (#[trigger] self.order[j])
                < self.concepts.len() && self.concepts[self.order[j]].name == name;
        self.lemma_position(name, self.order[j]);
    }

    /// The transitive dependencies of a concept are its dependencies and
    /// their transitive dependencies.
    pub proof fn lemma_covered_is_reach(self, p: int, j: int)
        requires
            self.distinct(),
            self.ordered(),
            self.complete(),
            0 <= p < self.concepts.len(),
        ensures
            covered(self, p, self.concepts[p].dependencies.len() as int, j) == self.reaches(p, j),
    {
        let deps = self.concepts[p].dependencies;
        let k = deps.len() as int;
        if covered(self, p, k, j) {
            let m = choose|m: int| 0 <= m < k && m < deps.len() && via(self, #[trigger] deps[m], j);
            let q = self.position(deps[m]);
            self.lemma_dependency_resolves(p, m);
            if q == j {
                self.lemma_reach_edge(p, j);
            } else {
                self.lemma_reach_step(p, q, j);
            }
        }
        if self.reaches(p, j) {
            self.lemma_reach_split(p, j);
            if self.edge(p, j) {
                let m = choose|m: int| 0 <= m < deps.len() && deps[m] == self.concepts[j].name;
                self.lemma_position(deps[m], j);
                assert(via(self, deps[m], j));
            } else {
                let d = choose|d: int| #[trigger] self.edge(p, d) && self.reaches(d, j);
                let m = choose|m: int| 0 <= m < deps.len() && deps[m] == self.concepts[d].name;
                self.lemma_position(deps[m], d);
                assert(via(self, deps[m], j));
            }
        }
    }
}

/// The closures worked out so far, one slot for each concept of a map.
///
/// Concepts are told apart by offset, so the memo is a vector by offset and
/// a closure a vector of marks by offset: nothing here is keyed by a name.
pub struct ClosureMemo {
    slots: Vec<Option<Vec<bool>>>,
}

impl ClosureMemo {
    /// Whether the memo is one for the map `v`: a slot for each concept, in
    /// every filled slot that concept's transitive dependencies, and with a
    /// concept's slot those of its dependencies filled.
    pub closed spec fn fits(&self, v: MapView) -> bool {
        &&& self.slots@.len() == v.concepts.len()
        &&& forall|p: int|
            0 <= p < self.slots@.len() ==> ((#[trigger] self.slots@[p]) matches Some(bits)
                ==> marks_closure(v, p, bits@))
        &&& forall|p: int, q: int|
            0 <= p < self.slots@.len() && self.slots@[p] is Some && #[trigger] v.edge(p, q)
                ==> self.slots@[q] is Some
    }

    /// With a concept, a memo remembers all its transitive dependencies.
    pub proof fn lemma_remembers_closure(&self, v: MapView, a: int, b: int, steps: nat)
        requires
            self.fits(v),
            self.memoized(a),
            v.reaches_in(a, b, steps),
        ensures
            self.memoized(b),
        decreases steps,
    {
        if !v.edge(a, b) {
            let d = choose|d: int| #[trigger]
                v.edge(a, d) && v.reaches_in(d, b, (steps - 1) as nat);
            self.lemma_remembers_closure(v, d, b, (steps - 1) as nat);
        }
    }

    /// What a memo holds once the concept at offset `p` has been added to
    /// `before`: what it held, the concept, and the concept's transitive
    /// dependencies.
    pub open spec fn extends(&self, before: &ClosureMemo, v: MapView, p: int) -> bool {
        forall|x: int| #[trigger]
            self.memoized(x) <==> before.memoized(x) || x == p || v.reaches(p, x)
    }

    /// Whether the closure of the concept at offset `p` is remembered.
    pub closed spec fn memoized(&self, p: int) -> bool {
        0 <= p < self.slots@.len() && self.slots@[p] is Some
    }

    /// The marks in the slot of the concept at offset `p`; none where the
    /// slot is empty.
    pub closed spec fn bits(&self, p: int) -> Seq<bool> {
        if self.memoized(p) {
            self.slots@[p]->0@
        } else {
            Seq::empty()
        }
    }

    /// The offsets that the memo holds as the closure of the concept at
    /// offset `p`, be they its transitive dependencies in some map or not;
    /// none where its closure is not remembered.
    pub open spec fn closure(&self, p: int) -> Set<int> {
        Set::new(|j: int| 0 <= j < self.bits(p).len() && self.bits(p)[j])
    }

    /// In a memo for the map `v`, the marks of a remembered concept mark its
    /// transitive dependencies.
    pub proof fn lemma_fits_marks(&self, v: MapView, p: int)
        requires
            self.fits(v),
            self.memoized(p),
        ensures
            marks_closure(v, p, self.bits(p)),
    {
    }

    /// In a memo for the map `v`, the closure that is remembered for a
    /// concept holds exactly the concept's transitive dependencies.
    pub proof fn lemma_fitting_closure(&self, v: MapView, p: int, j: int)
        requires
            self.fits(v),
            self.memoized(p),
        ensures
            self.closure(p).contains(j) <==> v.reaches(p, j),
    {
        if v.reaches(p, j) {
            v.lemma_reach_in_range(p, j);
        }
        assert(marks_closure(v, p, self.bits(p)));
        if 0 <= j < self.bits(p).len() {
            assert(self.bits(p)[j] == v.reaches(p, j));
        }
    }

    /// An empty memo for `map`.
    pub fn new(map: &ConceptMap) -> (memo: ClosureMemo)
        ensures
            memo.fits(map@),
            forall|p: int| !memo.memoized(p),
    {
        let n = map.len();
        let mut slots: Vec<Option<Vec<bool>>> = Vec::new();
        while slots.len() < n
            invariant
                slots.len() <= n,
                forall|p: int| 0 <= p < slots.len() ==> (#[trigger] slots[p]) is None,
            decreases n - slots.len(),
        {
            slots.push(None);
        }
        ClosureMemo { slots }
    }

    /// Whether the closure of the concept at `position` is remembered.
    pub fn is_memoized(&self, position: usize) -> (b: bool)
        ensures
            b == self.memoized(position as int),
    {
        position < self.slots.len() && self.slots[position].is_some()
    }

    /// The remembered marks of the concept at `position`.
    fn marks(&self, position: usize) -> (bits: &Vec<bool>)
        requires
            self.memoized(position as int),
        ensures
            bits@ == self.bits(position as int),
    {
        match &self.slots[position] {
            Some(bits) => bits,
            None => {
                assert(false);
                unreached()
            },
        }
    }

    /// Remembers `bits` as the marks of the concept at `position`.
    fn remember(&mut self, position: usize, bits: Vec<bool>, Ghost(v): Ghost<MapView>)
        requires
            old(self).fits(v),
            position < v.concepts.len(),
            marks_closure(v, position as int, bits@),
            forall|q: int| #[trigger] v.edge(position as int, q) ==> old(self).memoized(q),
        ensures
            final(self).fits(v),
            forall|x: int| #[trigger]
                final(self).memoized(x) <==> old(self).memoized(x) || x == position,
    {
        self.slots.set(position, Some(bits));
    }
}

/// A vector of `n` cleared marks.
fn cleared(n: usize) -> (bits: Vec<bool>)
    ensures
        bits.len() == n,
        forall|j: int| 0 <= j < n ==> !(#[trigger] bits[j]),
{
    let mut bits: Vec<bool> = Vec::new();
    while bits.len() < n
        invariant
            bits.len() <= n,
            forall|j: int| 0 <= j < bits.len() ==> !(#[trigger] bits[j]),
        decreases n - bits.len(),
    {
        bits.push(false);
    }
    bits
}

/// The offsets that `bits` marks, rising.
fn marked(bits: &Vec<bool>) -> (r: Vec<usize>)
    ensures
        forall|a: int, b: int| 0 <= a < b < r.len() ==> (#[trigger] r[a]) < (#[trigger] r[b]),
        forall|a: int| 0 <= a < r.len() ==> (#[trigger] r[a]) < bits.len() && bits[r[a] as int],
        forall|j: int| 0 <= j < bits.len() && (#[trigger] bits[j]) ==> r@.contains(j as usize),
{
    let mut r: Vec<usize> = Vec::new();
    let mut j: usize = 0;
    while j < bits.len()
        invariant
            j <= bits.len(),
            forall|a: int, b: int| 0 <= a < b < r.len() ==> (#[trigger] r[a]) < (#[trigger] r[b]),
            forall|a: int| 0 <= a < r.len() ==> (#[trigger] r[a]) < j && bits[r[a] as int],
            forall|i: int| 0 <= i < j && (#[trigger] bits[i]) ==> r@.contains(i as usize),
        decreases bits.len() - j,
    {
        if bits[j] {
            let ghost before = r@;
            r.push(j);
            assert(r@[before.len() as int] == j);
            assert forall|i: int| 0 <= i < j + 1 && (#[trigger] bits[i]) implies r@.contains(
                i as usize,
            ) by {
                if i < j {
                    let a = choose|a: int| 0 <= a < before.len() && before[a] == i as usize;
                    assert(r@[a] == i as usize);
                }
            }
        }
        j += 1;
    }
    r
}

/// Why closures could not be worked out.
#[derive(Debug, PartialEq, Eq)]
pub enum SolveError {
    /// The map's order leaves concepts out: it was not validated, or its
    /// dependencies go in circles.
    Unordered,
}

impl ConceptMap {
    /// Works out the transitive dependencies of the concept at `position`
    /// and of every concept on the way, unless they are remembered, and
    /// remembers them in `dep_closure`. A remembered concept costs nothing:
    /// the memo stays as it is.
    pub fn solve_dependency_transitive_closure(
        &self,
        dep_closure: &mut ClosureMemo,
        position: usize,
    )
        requires
            old(dep_closure).memoized(position as int) || (self@.wf() && self@.complete() && old(
                dep_closure,
            ).fits(self@) && position < self@.concepts.len()),
        ensures
            final(dep_closure).memoized(position as int),
            old(dep_closure).memoized(position as int) ==> *final(dep_closure) == *old(dep_closure),
            old(dep_closure).fits(self@) ==> final(dep_closure).fits(self@),
            old(dep_closure).fits(self@) ==> final(dep_closure).extends(
                old(dep_closure),
                self@,
                position as int,
            ),
        decreases self@.rank(position as int),
    {
        if dep_closure.is_memoized(position) {
            proof {
                if dep_closure.fits(self@) {
                    assert forall|x: int|
                        self@.reaches(position as int, x) implies dep_closure.memoized(x) by {
                        let steps = choose|steps: nat| self@.reaches_in(position as int, x, steps);
                        dep_closure.lemma_remembers_closure(self@, position as int, x, steps);
                    }
                }
            }
            return ;
        }
        let ghost v = self@;
        let ghost p = position as int;
        let n = self.len();
        let deps = self.concept(position).dependencies();
        let mut all = cleared(n);
        let mut k: usize = 0;
        while k < deps.len()
            invariant
                k <= deps.len(),
                v == self@,
                p == position as int,
                v.wf(),
                v.complete(),
                0 <= p < v.concepts.len(),
                n == v.concepts.len(),
                texts(deps@) == v.concepts[p].dependencies,
                dep_closure.fits(v),
                forall|x: int| old(dep_closure).memoized(x) ==> dep_closure.memoized(x),
                forall|x: int| #[trigger]
                    dep_closure.memoized(x) ==> old(dep_closure).memoized(x) || v.reaches(p, x),
                !dep_closure.memoized(p),
                forall|m: int|
                    0 <= m < k ==> dep_closure.memoized(
                        v.position(#[trigger] v.concepts[p].dependencies[m]),
                    ),
                all.len() == n,
                forall|j: int| 0 <= j < n ==> (#[trigger] all[j]) == covered(v, p, k as int, j),
            decreases deps.len() - k,
        {
            let ghost name = v.concepts[p].dependencies[k as int];
            proof {
                v.lemma_dependency_resolves(p, k as int);
            }
            let found = self.position_of(deps[k].as_str());
            assert(found is Some);
            let q = found.unwrap();
            proof {
                v.lemma_position(name, q as int);
                v.lemma_covers(p);
                v.lemma_edge_rank(p, q as int);
            }
            let ghost held = *dep_closure;
            self.solve_dependency_transitive_closure(dep_closure, q);
            proof {
                assert forall|x: int| #[trigger] dep_closure.memoized(x) implies old(
                    dep_closure,
                ).memoized(x) || v.reaches(p, x) by {
                    if !held.memoized(x) {
                        if x == q {
                            v.lemma_reach_edge(p, q as int);
                        } else {
                            v.lemma_reach_step(p, q as int, x);
                        }
                    }
                }
                assert(!dep_closure.memoized(p)) by {
                    if v.reaches(q as int, p) {
                        let steps = choose|steps: nat| v.reaches_in(q as int, p, steps);
                        v.lemma_covers(q as int);
                        v.lemma_reach_rank(q as int, p, steps);
                    }
                }
                assert forall|m: int| 0 <= m < k + 1 implies dep_closure.memoized(
                    v.position(#[trigger] v.concepts[p].dependencies[m]),
                ) by {
                    if m < k {
                        assert(held.memoized(v.position(v.concepts[p].dependencies[m])));
                    }
                }
            }
            let reached = dep_closure.marks(q);
            assert(marks_closure(v, q as int, reached@)) by {
                dep_closure.lemma_fits_marks(v, q as int);
            }
            let mut j: usize = 0;
            while j < n
                invariant
                    j <= n,
                    n == v.concepts.len(),
                    all.len() == n,
                    k < deps.len(),
                    texts(deps@) == v.concepts[p].dependencies,
                    name == v.concepts[p].dependencies[k as int],
                    v.position(name) == q,
                    marks_closure(v, q as int, reached@),
                    forall|i: int|
                        0 <= i < j ==> (#[trigger] all[i]) == covered(v, p, k + 1, i),
                    forall|i: int|
                        j <= i < n ==> (#[trigger] all[i]) == covered(v, p, k as int, i),
                decreases n - j,
            {
                if j == q || reached[j] {
                    all.set(j, true);
                }
                proof {
                    let i = j as int;
                    if covered(v, p, k as int, i) {
                        let m = choose|m: int|
                            0 <= m < k && m < v.concepts[p].dependencies.len() && via(
                                v,
                                #[trigger] v.concepts[p].dependencies[m],
                                i,
                            );
                        assert(via(v, v.concepts[p].dependencies[m], i));
                        assert(covered(v, p, k + 1, i));
                    }
                    if i == q || reached[i] {
                        assert(via(v, v.concepts[p].dependencies[k as int], i));
                        assert(covered(v, p, k + 1, i));
                    }
                    if covered(v, p, k + 1, i) {
                        let m = choose|m: int|
                            0 <= m < k + 1 && m < v.concepts[p].dependencies.len() && via(
                                v,
                                #[trigger] v.concepts[p].dependencies[m],
                                i,
                            );
                        if m < k {
                            assert(covered(v, p, k as int, i));
                        }
                    }
                }
                j += 1;
            }
            k += 1;
        }
        proof {
            assert forall|j: int| 0 <= j < all.len() implies (#[trigger] all[j]) == v.reaches(
                p,
                j,
            ) by {
                v.lemma_covered_is_reach(p, j);
            }
            assert forall|q: int| #[trigger] v.edge(p, q) implies dep_closure.memoized(q) by {
                let deps = v.concepts[p].dependencies;
                let m = choose|m: int| 0 <= m < deps.len() && deps[m] == v.concepts[q].name;
                v.lemma_position(deps[m], q);
            }
        }
        dep_closure.remember(position, all, Ghost(v));
        proof {
            assert forall|x: int| #[trigger]
                dep_closure.memoized(x) <==> old(dep_closure).memoized(x) || x == p || v.reaches(
                    p,
                    x,
                ) by {
                if v.reaches(p, x) {
                    let steps = choose|steps: nat| v.reaches_in(p, x, steps);
                    dep_closure.lemma_remembers_closure(v, p, x, steps);
                }
            }
        }
    }

    /// The closure of the concept at `position`, as rising offsets. Where
    /// it is remembered in `memo`, it is returned as it is remembered,
    /// whatever the map, nothing is looked up, and `memo` stays as it is.
    /// Otherwise it is worked out, with the closure of every concept on the
    /// way, and remembered; for that the map has to be validated and its
    /// order complete, and `memo` one for this map.
    pub fn closure_of(&self, memo: &mut ClosureMemo, position: usize) -> (r: Vec<usize>)
        requires
            old(memo).memoized(position as int) || (self@.wf() && self@.complete() && old(
                memo,
            ).fits(self@) && position < self@.concepts.len()),
        ensures
            final(memo).memoized(position as int),
            lists(r@, final(memo).closure(position as int)),
            old(memo).memoized(position as int) ==> *final(memo) == *old(memo),
            old(memo).fits(self@) ==> final(memo).fits(self@),
            old(memo).fits(self@) ==> final(memo).extends(old(memo), self@, position as int),
            old(memo).fits(self@) ==> is_closure(self@, position as int, r@),
    {
        self.solve_dependency_transitive_closure(memo, position);
        let bits = memo.marks(position);
        let r = marked(bits);
        proof {
            if old(memo).fits(self@) {
                let v = self@;
                memo.lemma_fits_marks(v, position as int);
                assert forall|j: int| #[trigger] v.reaches(position as int, j) implies 0 <= j
                    <= usize::MAX && r@.contains(j as usize) by {
                    v.lemma_reach_in_range(position as int, j);
                    assert(bits[j]);
                }
            }
            assert forall|j: int| #[trigger]
                memo.closure(position as int).contains(j) implies 0 <= j <= usize::MAX
                && r@.contains(j as usize) by {
                assert(bits[j]);
            }
        }
        r
    }

    /// The transitive dependencies of every concept, each as rising offsets,
    /// by the concept's offset; an error where the map's order is not
    /// complete.
    pub fn solve(&self) -> (r: Result<Vec<Vec<usize>>, SolveError>)
        requires
            self@.wf(),
        ensures
            match r {
                Ok(closures) => {
                    &&& self@.complete()
                    &&& closures.len() == self@.concepts.len()
                    &&& forall|p: int|
                        0 <= p < closures.len() ==> is_closure(self@, p, (#[trigger] closures[p])@)
                },
                Err(e) => e == SolveError::Unordered && !self@.complete(),
            },
    {
        if self.dependency_order().len() != self.len() {
            return Err(SolveError::Unordered);
        }
        let mut memo = ClosureMemo::new(self);
        let mut closures: Vec<Vec<usize>> = Vec::new();
        let n = self.len();
        let mut p: usize = 0;
        while p < n
            invariant
                p <= n,
                n == self@.concepts.len(),
                self@.wf(),
                self@.complete(),
                memo.fits(self@),
                closures.len() == p,
                forall|i: int| 0 <= i < p ==> is_closure(self@, i, (#[trigger] closures[i])@),
            decreases n - p,
        {
            let r = self.closure_of(&mut memo, p);
            closures.push(r);
            p += 1;
        }
        Ok(closures)
    }
}

impl MapView {
    /// Transitive dependencies are concepts of the map.
    pub proof fn lemma_reach_in_range(self, a: int, b: int)
        requires
            self.reaches(a, b),
        ensures
            0 <= a < self.concepts.len(),
            0 <= b < self.concepts.len(),
    {
        let steps = choose|steps: nat| self.reaches_in(a, b, steps);
        self.lemma_reach_in_range_within(a, b, steps);
    }

    /// The same, for a bounded number of steps.
    pub proof fn lemma_reach_in_range_within(self, a: int, b: int, steps: nat)
        requires
            self.reaches_in(a, b, steps),
        ensures
            0 <= a < self.concepts.len(),
            0 <= b < self.concepts.len(),
        decreases steps,
    {
        if !self.edge(a, b) {
            let d = choose|d: int| #[trigger]
                self.edge(a, d) && self.reaches_in(d, b, (steps - 1) as nat);
            self.lemma_reach_in_range_within(d, b, (steps - 1) as nat);
        }
    }
}

} // verus!
