//! The concept map: the concepts of a curriculum in the order they came in,
//! found by name, with the diagnostics that building it gave rise to.

use crate::concept::{Concept, ConceptRecord, ConceptView, RecordView};
use crate::diagnostics::{
    diagnostic_views, report, report_text, Diagnostic, DiagnosticView, MAX_RECORDS,
};
use crate::text::texts;
use vstd::prelude::*;

verus! {

/// The concepts of a curriculum and what is known of their dependencies.
///
/// Concepts are found by name with a scan of the list: names are unique, so
/// the place of a name is a function of the list.
pub struct ConceptMap {
    nconcepts: usize,
    concepts: Vec<Concept>,
    dependency_order: Vec<usize>,
    errors: Vec<Diagnostic>,
}

/// A concept map as the contracts speak of it.
pub struct MapView {
    /// How many records were taken in, redundant ones included.
    pub records: nat,
    /// The concepts, each at its offset.
    pub concepts: Seq<ConceptView>,
    /// The offsets of the concepts that validation could place, every one
    /// after all the concepts that it depends on.
    pub order: Seq<int>,
    /// The diagnostics, in the order they arose.
    pub diagnostics: Seq<DiagnosticView>,
}

/// The views of a vector of concepts, in order.
pub open spec fn concept_views(v: Seq<Concept>) -> Seq<ConceptView> {
    Seq::new(v.len(), |i: int| v[i]@)
}

/// The offsets that a vector of offsets holds, as integers.
pub open spec fn offsets(v: Seq<usize>) -> Seq<int> {
    Seq::new(v.len(), |i: int| v[i] as int)
}

impl View for ConceptMap {
    type V = MapView;

    closed spec fn view(&self) -> MapView {
        MapView {
            records: self.nconcepts as nat,
            concepts: concept_views(self.concepts@),
            order: offsets(self.dependency_order@),
            diagnostics: diagnostic_views(self.errors@),
        }
    }
}

impl MapView {
    /// The map before any record.
    pub open spec fn empty() -> MapView {
        MapView {
            records: 0,
            concepts: Seq::empty(),
            order: Seq::empty(),
            diagnostics: Seq::empty(),
        }
    }

    /// Whether a concept goes by `name`.
    pub open spec fn has(self, name: Seq<char>) -> bool {
        exists|i: int| 0 <= i < self.concepts.len() && (#[trigger] self.concepts[i]).name == name
    }

    /// The offset of the concept that goes by `name`, where there is one.
    pub open spec fn position(self, name: Seq<char>) -> int {
        choose|i: int| 0 <= i < self.concepts.len() && (#[trigger] self.concepts[i]).name == name
    }

    /// Whether the concept that goes by `name` is among the first `k` of the
    /// order.
    pub open spec fn placed_before(self, name: Seq<char>, k: int) -> bool {
        exists|j: int|
            0 <= j < k && j < self.order.len() && 0 <= (#[trigger] self.order[j])
                < self.concepts.len() && self.concepts[self.order[j]].name == name
    }

    /// Whether every concept stands at its offset and under the number of a
    /// record that was taken in.
    pub open spec fn numbered(self) -> bool {
        forall|i: int|
            0 <= i < self.concepts.len() ==> {
                let c = #[trigger] self.concepts[i];
                c.offset == i && 1 <= c.line <= self.records
            }
    }

    /// Whether no two concepts share a name, and later ones came from later
    /// records.
    pub open spec fn distinct(self) -> bool {
        forall|i: int, j: int|
            0 <= i < j < self.concepts.len() ==> {
                let a = #[trigger] self.concepts[i];
                let b = #[trigger] self.concepts[j];
                a.name != b.name && a.line < b.line
            }
    }

    /// Whether the order lists offsets of concepts, none twice, each after
    /// every concept that it depends on.
    pub open spec fn ordered(self) -> bool {
        &&& forall|k: int|
            0 <= k < self.order.len() ==> 0 <= (#[trigger] self.order[k]) < self.concepts.len()
        &&& forall|j: int, k: int|
            0 <= j < k < self.order.len() ==> (#[trigger] self.order[j]) != (
            #[trigger] self.order[k])
        &&& forall|k: int, m: int|
            0 <= k < self.order.len() && 0 <= m < self.concepts[self.order[k]].dependencies.len()
                ==> #[trigger] self.placed_before(
                self.concepts[self.order[k]].dependencies[m],
                k,
            )
    }

    /// The invariant of a concept map.
    pub open spec fn wf(self) -> bool {
        &&& self.records <= MAX_RECORDS
        &&& self.concepts.len() <= self.records
        &&& self.numbered()
        &&& self.distinct()
        &&& self.ordered()
        &&& forall|i: int|
            0 <= i < self.diagnostics.len() ==> (#[trigger] self.diagnostics[i]).bounded()
    }

    /// The map after one more record. A record whose name is taken leaves
    /// the concepts as they are and is reported; any other adds its concept
    /// at the end.
    pub open spec fn add(self, r: RecordView) -> MapView {
        let record = self.records + 1;
        if self.has(r.name()) {
            MapView {
                records: record,
                diagnostics: self.diagnostics.push(
                    DiagnosticView::RedundantConcept {
                        name: r.name(),
                        record,
                        first_record: self.concepts[self.position(r.name())].line,
                    },
                ),
                ..self
            }
        } else {
            MapView {
                records: record,
                concepts: self.concepts.push(
                    ConceptView {
                        name: r.name(),
                        category: r.category_name(),
                        line: record,
                        offset: self.concepts.len(),
                        dependencies: r.dependency_names(),
                    },
                ),
                ..self
            }
        }
    }

    /// In a well-formed map a name has one place.
    pub proof fn lemma_position(self, name: Seq<char>, i: int)
        requires
            self.distinct(),
            0 <= i < self.concepts.len(),
            self.concepts[i].name == name,
        ensures
            self.has(name),
            self.position(name) == i,
    {
        let p = self.position(name);
        if p < i {
            assert(self.concepts[p].name != self.concepts[i].name);
        } else if i < p {
            assert(self.concepts[i].name != self.concepts[p].name);
        }
    }
}

impl MapView {
    /// The same map with another order.
    pub open spec fn with_order(self, order: Seq<int>) -> MapView {
        MapView { order, ..self }
    }

    /// Those of `deps` that name a concept of the map, in their order.
    pub open spec fn resolved(self, deps: Seq<Seq<char>>) -> Seq<Seq<char>>
        decreases deps.len(),
    {
        if deps.len() == 0 {
            Seq::empty()
        } else {
            let before = self.resolved(deps.drop_last());
            if self.has(deps.last()) {
                before.push(deps.last())
            } else {
                before
            }
        }
    }

    /// One diagnostic for each of `deps` that names no concept of the map,
    /// in their order; `c` is the concept that lists them.
    pub open spec fn dangling(self, c: ConceptView, deps: Seq<Seq<char>>) -> Seq<DiagnosticView>
        decreases deps.len(),
    {
        if deps.len() == 0 {
            Seq::empty()
        } else {
            let before = self.dangling(c, deps.drop_last());
            if self.has(deps.last()) {
                before
            } else {
                before.push(
                    DiagnosticView::DanglingDependency {
                        dependency: deps.last(),
                        concept: c.name,
                        record: c.line,
                    },
                )
            }
        }
    }

    /// The diagnostics for the dangling dependencies of the first `count`
    /// concepts, concept by concept.
    pub open spec fn dangling_upto(self, count: int) -> Seq<DiagnosticView>
        decreases count,
    {
        if count <= 0 {
            Seq::empty()
        } else {
            self.dangling_upto(count - 1) + self.dangling(
                self.concepts[count - 1],
                self.concepts[count - 1].dependencies,
            )
        }
    }

    /// The concepts, each with only those of its dependencies that name a
    /// concept of the map.
    pub open spec fn pruned_concepts(self) -> Seq<ConceptView> {
        Seq::new(
            self.concepts.len(),
            |i: int| self.concepts[i].with_dependencies(self.resolved(self.concepts[i].dependencies)),
        )
    }

    /// The map with its concepts pruned.
    pub open spec fn pruned(self) -> MapView {
        MapView { concepts: self.pruned_concepts(), ..self }
    }

    /// Whether every dependency of every concept names a concept of the map.
    pub open spec fn closed(self) -> bool {
        forall|i: int, m: int|
            0 <= i < self.concepts.len() && 0 <= m < self.concepts[i].dependencies.len()
                ==> self.has(#[trigger] self.concepts[i].dependencies[m])
    }

    /// Whether the order holds every concept.
    pub open spec fn complete(self) -> bool {
        self.order.len() == self.concepts.len()
    }

    /// Whether the concept at offset `i` is left out of the order.
    pub open spec fn stuck(self, i: int) -> bool {
        0 <= i < self.concepts.len() && !self.order.contains(i)
    }

    /// Whether nothing more can be placed: every concept that the order
    /// leaves out has a dependency that the order leaves out too.
    pub open spec fn fixed_point(self) -> bool {
        forall|i: int| #[trigger]
            self.stuck(i) ==> exists|m: int|
                0 <= m < self.concepts[i].dependencies.len() && !self.placed_before(
                    #[trigger] self.concepts[i].dependencies[m],
                    self.order.len() as int,
                )
    }

    /// Whether every dependency of the concept at offset `i` is placed.
    pub open spec fn free(self, i: int) -> bool {
        forall|m: int|
            0 <= m < self.concepts[i].dependencies.len() ==> self.placed_before(
                #[trigger] self.concepts[i].dependencies[m],
                self.order.len() as int,
            )
    }

    /// The order at the end of a pass that has come to offset `i`: going up
    /// the offsets, every concept that is left out and free is placed at
    /// once, so that it counts as placed for the concepts after it.
    pub open spec fn sweep(self, i: int) -> Seq<int>
        decreases self.concepts.len() - i,
    {
        if i < 0 || i >= self.concepts.len() {
            self.order
        } else if self.stuck(i) && self.free(i) {
            self.with_order(self.order.push(i)).sweep(i + 1)
        } else {
            self.sweep(i + 1)
        }
    }

    /// The order that passes arrive at from the map's order: pass follows
    /// pass until one places nothing or every concept is placed.
    pub open spec fn peel(self) -> Seq<int>
        decreases self.concepts.len() - self.order.len(),
    {
        let next = self.sweep(0);
        if next.len() <= self.order.len() || next.len() >= self.concepts.len() {
            next
        } else {
            self.with_order(next).peel()
        }
    }

    /// The order that validation gives the concepts.
    pub open spec fn peeled(self) -> Seq<int> {
        self.with_order(Seq::empty()).peel()
    }

    /// The names of those among the first `count` concepts that the order
    /// leaves out, by offset.
    pub open spec fn stuck_names_upto(self, count: int) -> Seq<Seq<char>>
        decreases count,
    {
        if count <= 0 {
            Seq::empty()
        } else {
            let before = self.stuck_names_upto(count - 1);
            if self.stuck(count - 1) {
                before.push(self.concepts[count - 1].name)
            } else {
                before
            }
        }
    }

    /// The names of the concepts that the order leaves out, by offset.
    pub open spec fn stuck_names(self) -> Seq<Seq<char>> {
        self.stuck_names_upto(self.concepts.len() as int)
    }

    /// The diagnostic that names the concepts left out of the order; none
    /// where the order is complete.
    pub open spec fn cycle_report(self) -> Seq<DiagnosticView> {
        if self.stuck_names().len() == 0 {
            Seq::empty()
        } else {
            seq![DiagnosticView::CircularDependencies { concepts: self.stuck_names() }]
        }
    }

    /// Whether `after` is this map validated: dangling dependencies dropped
    /// and reported, and the concepts ordered as far as their dependencies
    /// allow, the rest reported as circular.
    pub open spec fn validates_to(self, after: MapView) -> bool {
        &&& after.wf()
        &&& after.records == self.records
        &&& after.concepts == self.pruned_concepts()
        &&& after.closed()
        &&& after.fixed_point()
        &&& after.order == after.peeled()
        &&& after.complete() <==> after.stuck_names().len() == 0
        &&& after.diagnostics == self.diagnostics + self.dangling_upto(self.concepts.len() as int)
            + after.cycle_report()
    }

    /// Whether `places` are the offsets of the concepts that `names` name.
    pub open spec fn resolves_to(self, names: Seq<Seq<char>>, places: Seq<usize>) -> bool {
        &&& places.len() == names.len()
        &&& forall|m: int|
            0 <= m < places.len() ==> (#[trigger] places[m]) < self.concepts.len()
                && self.concepts[places[m] as int].name == names[m]
    }

    /// Whether `adjacency` holds, for every concept, the offsets of its
    /// dependencies.
    pub open spec fn wired(self, adjacency: Seq<Vec<usize>>) -> bool {
        &&& adjacency.len() == self.concepts.len()
        &&& forall|i: int|
            0 <= i < adjacency.len() ==> self.resolves_to(
                self.concepts[i].dependencies,
                (#[trigger] adjacency[i])@,
            )
    }

    /// Whether `pending` marks exactly the concepts that the order leaves out.
    pub open spec fn marks(self, pending: Seq<bool>) -> bool {
        &&& pending.len() == self.concepts.len()
        &&& forall|i: int| 0 <= i < pending.len() ==> (#[trigger] pending[i]) == self.stuck(i)
    }

    /// A concept that is not in the order is not placed under its name.
    pub proof fn lemma_unplaced(self, q: int)
        requires
            self.distinct(),
            self.stuck(q),
        ensures
            !self.placed_before(self.concepts[q].name, self.order.len() as int),
    {
        if self.placed_before(self.concepts[q].name, self.order.len() as int) {
            let j = choose|j: int|
                0 <= j < self.order.len() && j < self.order.len() && 0 <= (#[trigger] self.order[j])
                    < self.concepts.len() && self.concepts[self.order[j]].name
                    == self.concepts[q].name;
            let p = self.order[j];
            if p < q {
                assert(self.concepts[p].name != self.concepts[q].name);
            } else if q < p {
                assert(self.concepts[q].name != self.concepts[p].name);
            }
            assert(self.order.contains(q));
        }
    }

    /// Placing a concept whose dependencies are all placed keeps the order
    /// in order.
    pub proof fn lemma_place(self, i: int)
        requires
            self.ordered(),
            self.stuck(i),
            forall|m: int|
                0 <= m < self.concepts[i].dependencies.len() ==> self.placed_before(
                    #[trigger] self.concepts[i].dependencies[m],
                    self.order.len() as int,
                ),
        ensures
            self.with_order(self.order.push(i)).ordered(),
    {
        let after = self.with_order(self.order.push(i));
        let last = self.order.len() as int;
        assert forall|j: int, k: int| 0 <= j < k < after.order.len() implies (
        #[trigger] after.order[j]) != (#[trigger] after.order[k]) by {
            if k == last {
                assert(self.order[j] != i);
            }
        }
        assert forall|k: int, m: int|
            0 <= k < after.order.len() && 0 <= m
                < after.concepts[after.order[k]].dependencies.len() implies #[trigger] after.placed_before(
            after.concepts[after.order[k]].dependencies[m],
            k,
        ) by {
            let name = after.concepts[after.order[k]].dependencies[m];
            if k == last {
                assert(self.placed_before(self.concepts[i].dependencies[m], last));
            } else {
                assert(self.placed_before(self.concepts[self.order[k]].dependencies[m], k));
            }
            let j = choose|j: int|
                0 <= j < k && j < self.order.len() && 0 <= (#[trigger] self.order[j])
                    < self.concepts.len() && self.concepts[self.order[j]].name == name;
            assert(after.order[j] == self.order[j]);
        }
    }
}

/// How many of `flags` are set.
pub open spec fn count_true(flags: Seq<bool>) -> nat
    decreases flags.len(),
{
    if flags.len() == 0 {
        0
    } else {
        count_true(flags.drop_last()) + if flags.last() {
            1nat
        } else {
            0nat
        }
    }
}

/// Clearing a set flag leaves one fewer set.
proof fn lemma_count_clear(flags: Seq<bool>, i: int)
    requires
        0 <= i < flags.len(),
        flags[i],
    ensures
        count_true(flags.update(i, false)) + 1 == count_true(flags),
    decreases flags.len(),
{
    let cleared = flags.update(i, false);
    if i == flags.len() - 1 {
        assert(cleared.drop_last() =~= flags.drop_last());
    } else {
        lemma_count_clear(flags.drop_last(), i);
        assert(cleared.drop_last() =~= flags.drop_last().update(i, false));
    }
}

/// Where no flag is counted, none is set; and no more are set than there are.
proof fn lemma_count_bounds(flags: Seq<bool>)
    ensures
        count_true(flags) <= flags.len(),
        count_true(flags) == 0 ==> forall|i: int| 0 <= i < flags.len() ==> !flags[i],
    decreases flags.len(),
{
    if flags.len() > 0 {
        lemma_count_bounds(flags.drop_last());
        if count_true(flags) == 0 {
            assert forall|i: int| 0 <= i < flags.len() implies !flags[i] by {
                if i < flags.len() - 1 {
                    assert(flags.drop_last()[i] == flags[i]);
                }
            }
        }
    }
}

/// What became of a record that was handed to a builder.
#[derive(Debug, PartialEq, Eq)]
pub enum AddOutcome {
    /// Its concept was added at this offset.
    Inserted { position: usize },
    /// Its name was taken by the concept of this earlier record.
    Redundant { first_record: usize },
}

impl ConceptMap {
    /// A map without concepts.
    pub fn new() -> (m: ConceptMap)
        ensures
            m@ == MapView::empty(),
            m@.wf(),
    {
        let m = ConceptMap {
            nconcepts: 0,
            concepts: Vec::new(),
            dependency_order: Vec::new(),
            errors: Vec::new(),
        };
        assert(m@.concepts =~= Seq::empty());
        assert(m@.order =~= Seq::empty());
        assert(m@.diagnostics =~= Seq::empty());
        m
    }

    /// The number of concepts.
    pub fn len(&self) -> (n: usize)
        ensures
            n == self@.concepts.len(),
    {
        self.concepts.len()
    }

    /// The number of records taken in.
    pub fn records(&self) -> (n: usize)
        ensures
            n == self@.records,
    {
        self.nconcepts
    }

    /// The concept at `position`.
    pub fn concept(&self, position: usize) -> (c: &Concept)
        requires
            position < self@.concepts.len(),
        ensures
            c@ == self@.concepts[position as int],
    {
        &self.concepts[position]
    }

    /// The offsets of the placed concepts, dependencies first.
    pub fn dependency_order(&self) -> (r: &Vec<usize>)
        ensures
            offsets(r@) == self@.order,
    {
        &self.dependency_order
    }

    /// The diagnostics recorded so far.
    pub fn diagnostics(&self) -> (r: &Vec<Diagnostic>)
        ensures
            diagnostic_views(r@) == self@.diagnostics,
    {
        &self.errors
    }

    /// The report of the diagnostics, or `None` where there is none.
    pub fn errs(&self) -> (r: Option<String>)
        requires
            self@.wf(),
        ensures
            match r {
                Some(text) => self@.diagnostics.len() > 0 && text@ == report_text(
                    self@.diagnostics,
                ),
                None => self@.diagnostics.len() == 0,
            },
    {
        if self.errors.len() == 0 {
            None
        } else {
            assert forall|i: int| 0 <= i < self.errors.len() implies (
            #[trigger] self.errors[i])@.bounded() by {
                assert(self@.diagnostics[i] == self.errors[i]@);
            }
            Some(report(&self.errors))
        }
    }

    /// Looks a concept up by name: the offset of the first concept that
    /// goes by `name`, which in a well-formed map is the only one.
    pub fn position_of(&self, name: &str) -> (r: Option<usize>)
        ensures
            match r {
                Some(i) => {
                    &&& i < self@.concepts.len()
                    &&& self@.concepts[i as int].name == name@
                    &&& forall|j: int| 0 <= j < i ==> (#[trigger] self@.concepts[j]).name != name@
                },
                None => !self@.has(name@),
            },
            self@.distinct() ==> (r is Some <==> self@.has(name@)),
            self@.distinct() && r is Some ==> r->0 == self@.position(name@),
    {
        let key = name.to_owned();
        let mut i: usize = 0;
        while i < self.concepts.len()
            invariant
                i <= self.concepts.len(),
                key@ == name@,
                forall|j: int| 0 <= j < i ==> (#[trigger] self@.concepts[j]).name != name@,
            decreases self.concepts.len() - i,
        {
            if self.concepts[i].is_named(&key) {
                proof {
                    if self@.distinct() {
                        self@.lemma_position(name@, i as int);
                    }
                }
                return Some(i);
            }
            i += 1;
        }
        None
    }

    /// The concept that goes by `n`. There has to be one.
    pub fn dependency_to_concept(&self, n: &str) -> (c: &Concept)
        requires
            self@.wf(),
            self@.has(n@),
        ensures
            c@ == self@.concepts[self@.position(n@)],
            c@.name == n@,
    {
        let idx = self.position_of(n).unwrap();
        &self.concepts[idx]
    }
}

/// Takes records in, one by one, and builds the map of their concepts.
pub struct ConceptMapBuilder {
    map: ConceptMap,
}

impl View for ConceptMapBuilder {
    type V = MapView;

    closed spec fn view(&self) -> MapView {
        self.map@
    }
}

impl ConceptMapBuilder {
    /// A builder that has seen no record.
    pub fn new() -> (b: ConceptMapBuilder)
        ensures
            b@ == MapView::empty(),
            b@.wf(),
    {
        ConceptMapBuilder { map: ConceptMap::new() }
    }

    /// Takes one record in. Its concept joins the map unless the name is
    /// taken; then the record is reported as redundant and dropped.
    pub fn add(&mut self, c: ConceptRecord) -> (outcome: AddOutcome)
        requires
            old(self)@.wf(),
            old(self)@.records < MAX_RECORDS,
        ensures
            final(self)@ == old(self)@.add(c@),
            final(self)@.wf(),
            match outcome {
                AddOutcome::Inserted { position } => !old(self)@.has(c@.name()) && position == old(
                    self,
                )@.concepts.len(),
                AddOutcome::Redundant { first_record } => old(self)@.has(c@.name())
                    && first_record == old(self)@.concepts[old(self)@.position(c@.name())].line,
            },
    {
        let ghost before = self@;
        let record = self.map.nconcepts + 1;
        let mut concept = Concept::new(&c, record);
        match self.map.position_of(concept.name()) {
            Some(first) => {
                proof {
                    before.lemma_position(c@.name(), first as int);
                }
                let first_record = self.map.concepts[first].line();
                self.map.nconcepts = record;
                self.map.errors.push(
                    Diagnostic::RedundantConcept {
                        name: concept.name().to_owned(),
                        record,
                        first_record,
                    },
                );
                proof {
                    let after = self@;
                    let expected = before.add(c@);
                    assert(after.diagnostics =~= expected.diagnostics);
                    assert(after.concepts =~= expected.concepts);
                    assert(after.order =~= expected.order);
                    before.lemma_add_wf(c@);
                }
                AddOutcome::Redundant { first_record }
            },
            None => {
                concept.read_dependencies(&c);
                let offset = self.map.concepts.len();
                concept.add_offset(offset);
                self.map.nconcepts = record;
                self.map.concepts.push(concept);
                proof {
                    let after = self@;
                    let expected = before.add(c@);
                    assert(after.diagnostics =~= expected.diagnostics);
                    assert(after.concepts =~= expected.concepts);
                    assert(after.order =~= expected.order);
                    before.lemma_add_wf(c@);
                }
                AddOutcome::Inserted { position: offset }
            },
        }
    }
}

impl MapView {
    /// Taking a record in keeps the invariant.
    pub proof fn lemma_add_wf(self, r: RecordView)
        requires
            self.wf(),
            self.records < MAX_RECORDS,
        ensures
            self.add(r).wf(),
    {
        let after = self.add(r);
        if self.has(r.name()) {
            assert forall|k: int, m: int|
                0 <= k < after.order.len() && 0 <= m
                    < after.concepts[after.order[k]].dependencies.len() implies #[trigger] after.placed_before(
                after.concepts[after.order[k]].dependencies[m],
                k,
            ) by {
                assert(self.placed_before(self.concepts[self.order[k]].dependencies[m], k));
            }
        } else {
            assert forall|i: int, j: int| 0 <= i < j < after.concepts.len() implies {
                let a = #[trigger] after.concepts[i];
                let b = #[trigger] after.concepts[j];
                a.name != b.name && a.line < b.line
            } by {
                if j < self.concepts.len() {
                    assert(after.concepts[i] == self.concepts[i]);
                    assert(after.concepts[j] == self.concepts[j]);
                } else {
                    assert(after.concepts[i] == self.concepts[i]);
                }
            }
            assert forall|k: int, m: int|
                0 <= k < after.order.len() && 0 <= m
                    < after.concepts[after.order[k]].dependencies.len() implies #[trigger] after.placed_before(
                after.concepts[after.order[k]].dependencies[m],
                k,
            ) by {
                assert(after.concepts[after.order[k]] == self.concepts[self.order[k]]);
                let name = self.concepts[self.order[k]].dependencies[m];
                assert(self.placed_before(name, k));
                let j = choose|j: int|
                    0 <= j < k && j < self.order.len() && 0 <= (#[trigger] self.order[j])
                        < self.concepts.len() && self.concepts[self.order[j]].name == name;
                assert(after.concepts[after.order[j]] == self.concepts[self.order[j]]);
            }
        }
    }
}

/// Whether the concept at offset `j` has a dependency that is still pending.
spec fn blocked(adjacency: Seq<Vec<usize>>, pending: Seq<bool>, j: int) -> bool {
    exists|m: int|
        0 <= m < adjacency[j]@.len() && 0 <= (#[trigger] adjacency[j]@[m]) < pending.len()
            && pending[adjacency[j]@[m] as int]
}

/// Finds the first of `places` that is still pending.
fn first_pending(places: &Vec<usize>, pending: &Vec<bool>) -> (r: Option<usize>)
    requires
        forall|m: int| 0 <= m < places.len() ==> (#[trigger] places[m]) < pending.len(),
    ensures
        match r {
            Some(m) => m < places.len() && pending[places[m as int] as int],
            None => forall|m: int| 0 <= m < places.len() ==> !pending[(#[trigger] places[m]) as int],
        },
{
    let mut m: usize = 0;
    while m < places.len()
        invariant
            m <= places.len(),
            forall|m: int| 0 <= m < places.len() ==> (#[trigger] places[m]) < pending.len(),
            forall|k: int| 0 <= k < m ==> !pending[(#[trigger] places[k]) as int],
        decreases places.len() - m,
    {
        if pending[places[m]] {
            return Some(m);
        }
        m += 1;
    }
    None
}

/// Orders the concepts of `v` by peeling: pass after pass over the offsets,
/// a concept is placed as soon as none of its dependencies is pending, until
/// a pass places nothing or nothing is pending. Returns the order and the
/// marks of the concepts that stay pending. The pending set is a vector of
/// marks by offset, which is what `adjacency` speaks of.
fn peel(adjacency: &Vec<Vec<usize>>, Ghost(v): Ghost<MapView>) -> (r: (Vec<usize>, Vec<bool>))
    requires
        v.wired(adjacency@),
        v.distinct(),
    ensures
        v.with_order(offsets(r.0@)).ordered(),
        v.with_order(offsets(r.0@)).fixed_point(),
        v.with_order(offsets(r.0@)).marks(r.1@),
        offsets(r.0@) == v.peeled(),
        count_true(r.1@) + r.0.len() == v.concepts.len(),
{
    let n = adjacency.len();
    let mut pending: Vec<bool> = Vec::new();
    let mut order: Vec<usize> = Vec::new();
    while pending.len() < n
        invariant
            pending.len() <= n,
            count_true(pending@) == pending.len(),
            forall|i: int| 0 <= i < pending.len() ==> pending[i],
        decreases n - pending.len(),
    {
        let ghost before = pending@;
        pending.push(true);
        assert(pending@.drop_last() =~= before);
    }
    let mut remaining: usize = n;
    let mut done = false;
    assert(offsets(order@) =~= Seq::empty());
    while !done
        invariant
            n == adjacency.len(),
            v.wired(adjacency@),
            v.distinct(),
            v.with_order(offsets(order@)).ordered(),
            v.with_order(offsets(order@)).marks(pending@),
            count_true(pending@) == remaining,
            order.len() + remaining == n,
            done ==> v.with_order(offsets(order@)).fixed_point(),
            done ==> offsets(order@) == v.peeled(),
            !done ==> v.with_order(offsets(order@)).peel() == v.peeled(),
        decreases
                remaining + if done {
                    0nat
                } else {
                    1nat
                },
    {
        let ghost start = remaining;
        let ghost began = v.with_order(offsets(order@));
        let mut shrunk = false;
        let mut i: usize = 0;
        while i < n
            invariant
                i <= n,
                n == adjacency.len(),
                v.wired(adjacency@),
                v.distinct(),
                v.with_order(offsets(order@)).ordered(),
                v.with_order(offsets(order@)).marks(pending@),
                count_true(pending@) == remaining,
                order.len() + remaining == n,
                shrunk ==> remaining < start,
                !shrunk ==> remaining == start,
                began.concepts == v.concepts,
                began.order.len() + start == n,
                v.with_order(offsets(order@)).sweep(i as int) == began.sweep(0),
                !shrunk ==> forall|j: int|
                    0 <= j < i && pending[j] ==> #[trigger] blocked(adjacency@, pending@, j),
            decreases n - i,
        {
            let ghost cur = v.with_order(offsets(order@));
            if pending[i] {
                assert(v.resolves_to(v.concepts[i as int].dependencies, adjacency@[i as int]@));
                match first_pending(&adjacency[i], &pending) {
                    Some(m) => {
                        assert(blocked(adjacency@, pending@, i as int)) by {
                            assert(pending[adjacency@[i as int]@[m as int] as int]);
                        }
                        assert(!cur.free(i as int)) by {
                            let q = adjacency@[i as int]@[m as int] as int;
                            assert(cur.stuck(q));
                            cur.lemma_unplaced(q);
                            assert(cur.concepts[q].name == cur.concepts[i as int].dependencies[m as int]);
                        }
                    },
                    None => {
                        proof {
                            let places = adjacency@[i as int]@;
                            assert forall|m: int|
                                0 <= m < cur.concepts[i as int].dependencies.len() implies cur.placed_before(
                                #[trigger] cur.concepts[i as int].dependencies[m],
                                cur.order.len() as int,
                            ) by {
                                let q = places[m] as int;
                                assert(!pending[q]);
                                assert(!cur.stuck(q));
                                let j = choose|j: int| 0 <= j < cur.order.len() && cur.order[j] == q;
                                assert(cur.order[j] == q);
                            }
                            cur.lemma_place(i as int);
                            lemma_count_clear(pending@, i as int);
                            assert(cur.free(i as int));
                        }
                        order.push(i);
                        pending.set(i, false);
                        remaining = remaining - 1;
                        shrunk = true;
                        proof {
                            let next = v.with_order(offsets(order@));
                            assert(next.order =~= cur.order.push(i as int));
                            assert(next == cur.with_order(cur.order.push(i as int)));
                            assert forall|x: int| 0 <= x < pending.len() implies (
                            #[trigger] pending[x]) == next.stuck(x) by {
                                if x == i {
                                    assert(next.order[cur.order.len() as int] == i);
                                } else if cur.order.contains(x) {
                                    let j = choose|j: int|
                                        0 <= j < cur.order.len() && cur.order[j] == x;
                                    assert(next.order[j] == x);
                                } else if next.order.contains(x) {
                                    let j = choose|j: int|
                                        0 <= j < next.order.len() && next.order[j] == x;
                                    assert(cur.order[j] == x);
                                }
                            }
                        }
                    },
                }
            }
            i += 1;
        }
        proof {
            let cur = v.with_order(offsets(order@));
            assert(cur.sweep(n as int) == cur.order);
            assert(cur == began.with_order(began.sweep(0)));
        }
        if !shrunk || remaining == 0 {
            done = true;
            proof {
                let cur = v.with_order(offsets(order@));
                lemma_count_bounds(pending@);
                assert forall|i: int| #[trigger] cur.stuck(i) implies exists|m: int|
                    0 <= m < cur.concepts[i].dependencies.len() && !cur.placed_before(
                        #[trigger] cur.concepts[i].dependencies[m],
                        cur.order.len() as int,
                    ) by {
                    assert(pending[i]);
                    assert(blocked(adjacency@, pending@, i));
                    let m = choose|m: int|
                        0 <= m < adjacency@[i]@.len() && 0 <= (#[trigger] adjacency@[i]@[m])
                            < pending.len() && pending[adjacency@[i]@[m] as int];
                    let q = adjacency@[i]@[m] as int;
                    assert(v.resolves_to(v.concepts[i].dependencies, adjacency@[i]@));
                    assert(cur.stuck(q));
                    cur.lemma_unplaced(q);
                    assert(cur.concepts[q].name == cur.concepts[i].dependencies[m]);
                }
            }
        }
    }
    (order, pending)
}

/// Collects the names of the concepts that are marked pending, by offset.
fn stuck_concepts(concepts: &Vec<Concept>, pending: &Vec<bool>, Ghost(v): Ghost<MapView>) -> (names:
    Vec<String>)
    requires
        v.concepts == concept_views(concepts@),
        v.marks(pending@),
    ensures
        texts(names@) == v.stuck_names(),
        names.len() == count_true(pending@),
{
    let mut names: Vec<String> = Vec::new();
    let mut i: usize = 0;
    assert(pending@.take(0) =~= Seq::empty());
    assert(texts(names@) =~= Seq::empty());
    while i < concepts.len()
        invariant
            i <= concepts.len(),
            v.concepts == concept_views(concepts@),
            v.marks(pending@),
            texts(names@) == v.stuck_names_upto(i as int),
            names.len() == count_true(pending@.take(i as int)),
        decreases concepts.len() - i,
    {
        let ghost before = texts(names@);
        assert(pending@.take(i + 1).drop_last() =~= pending@.take(i as int));
        assert(pending@.take(i + 1).last() == pending[i as int]);
        assert(pending[i as int] == v.stuck(i as int));
        if pending[i] {
            names.push(concepts[i].name().to_owned());
            assert(texts(names@) =~= before.push(v.concepts[i as int].name));
        }
        i += 1;
    }
    assert(pending@.take(pending.len() as int) =~= pending@);
    names
}

impl ConceptMap {
    /// Sorts the dependencies of the concept at offset `i` into those that
    /// name a concept, which are returned with their offsets, and the others,
    /// which are reported into `found`.
    fn prune_one(&self, i: usize, found: &mut Vec<Diagnostic>) -> (r: (Vec<String>, Vec<usize>))
        requires
            i < self@.concepts.len(),
        ensures
            texts(r.0@) == self@.resolved(self@.concepts[i as int].dependencies),
            self@.resolves_to(texts(r.0@), r.1@),
            diagnostic_views(final(found)@) == diagnostic_views(old(found)@) + self@.dangling(
                self@.concepts[i as int],
                self@.concepts[i as int].dependencies,
            ),
    {
        let concept = &self.concepts[i];
        let deps = concept.dependencies();
        let mut kept: Vec<String> = Vec::new();
        let mut places: Vec<usize> = Vec::new();
        let mut m: usize = 0;
        assert(texts(deps@).take(0) =~= Seq::empty());
        assert(texts(kept@) =~= Seq::empty());
        assert(diagnostic_views(found@) =~= diagnostic_views(old(found)@) + Seq::empty());
        while m < deps.len()
            invariant
                m <= deps.len(),
                concept@ == self@.concepts[i as int],
                texts(deps@) == concept@.dependencies,
                texts(kept@) == self@.resolved(texts(deps@).take(m as int)),
                self@.resolves_to(texts(kept@), places@),
                diagnostic_views(found@) == diagnostic_views(old(found)@) + self@.dangling(
                    concept@,
                    texts(deps@).take(m as int),
                ),
            decreases deps.len() - m,
        {
            let ghost seen = texts(deps@).take(m + 1);
            let ghost kept_before = texts(kept@);
            let ghost found_before = diagnostic_views(found@);
            assert(seen.drop_last() =~= texts(deps@).take(m as int));
            assert(seen.last() == deps[m as int]@);
            match self.position_of(deps[m].as_str()) {
                Some(p) => {
                    assert(self@.concepts[p as int].name == deps[m as int]@);
                    assert(self@.has(deps[m as int]@));
                    kept.push(deps[m].clone());
                    places.push(p);
                    assert(texts(kept@) =~= kept_before.push(deps[m as int]@));
                },
                None => {
                    let d = Diagnostic::DanglingDependency {
                        dependency: deps[m].clone(),
                        concept: concept.name().to_owned(),
                        record: concept.line(),
                    };
                    found.push(d);
                    assert(diagnostic_views(found@) =~= found_before.push(d@));
                },
            }
            m += 1;
        }
        assert(texts(deps@).take(deps.len() as int) =~= texts(deps@));
        (kept, places)
    }

    /// Goes through the concepts and drops every dependency that names no
    /// concept. Returns the concepts with what is left, and the offsets that
    /// their dependencies name; what was dropped is reported into `found`.
    fn prune(&self, found: &mut Vec<Diagnostic>) -> (r: (Vec<Concept>, Vec<Vec<usize>>))
        ensures
            concept_views(r.0@) == self@.pruned_concepts(),
            self@.pruned().wired(r.1@),
            diagnostic_views(final(found)@) == diagnostic_views(old(found)@)
                + self@.dangling_upto(self@.concepts.len() as int),
    {
        let mut pruned: Vec<Concept> = Vec::new();
        let mut adjacency: Vec<Vec<usize>> = Vec::new();
        let mut i: usize = 0;
        assert(diagnostic_views(found@) =~= diagnostic_views(old(found)@) + Seq::empty());
        while i < self.concepts.len()
            invariant
                i <= self.concepts.len(),
                pruned.len() == i,
                adjacency.len() == i,
                forall|j: int|
                    0 <= j < i ==> (#[trigger] pruned[j])@ == self@.pruned_concepts()[j],
                forall|j: int|
                    0 <= j < i ==> self@.resolves_to(
                        self@.pruned_concepts()[j].dependencies,
                        (#[trigger] adjacency[j])@,
                    ),
                diagnostic_views(found@) == diagnostic_views(old(found)@) + self@.dangling_upto(
                    i as int,
                ),
            decreases self.concepts.len() - i,
        {
            let (kept, places) = self.prune_one(i, found);
            pruned.push(self.concepts[i].with_dependencies(kept));
            adjacency.push(places);
            i += 1;
        }
        proof {
            assert(concept_views(pruned@) =~= self@.pruned_concepts());
            let after = self@.pruned();
            assert forall|i: int| 0 <= i < adjacency.len() implies after.resolves_to(
                after.concepts[i].dependencies,
                (#[trigger] adjacency[i])@,
            ) by {
                assert(self@.resolves_to(self@.pruned_concepts()[i].dependencies, adjacency[i]@));
            }
        }
        (pruned, adjacency)
    }
}

impl ConceptMapBuilder {
    /// Validates the map once all records are in: drops and reports the
    /// dependencies that name no concept, then orders the concepts
    /// dependencies first and reports those that no order can hold.
    pub fn validate(&mut self)
        requires
            old(self)@.wf(),
            old(self)@.order.len() == 0,
        ensures
            old(self)@.validates_to(final(self)@),
    {
        let ghost before = self@;
        let mut found: Vec<Diagnostic> = Vec::new();
        assert(diagnostic_views(found@) =~= Seq::empty());
        let (pruned, adjacency) = self.map.prune(&mut found);
        let ghost v = before.pruned();
        let (order, pending) = peel(&adjacency, Ghost(v));
        let ghost placed = v.with_order(offsets(order@));
        let names = stuck_concepts(&pruned, &pending, Ghost(placed));
        let ghost reported = diagnostic_views(self.map.errors@) + diagnostic_views(found@);
        self.map.concepts = pruned;
        self.map.dependency_order = order;
        self.map.errors.append(&mut found);
        assert(diagnostic_views(self.map.errors@) =~= reported);
        if names.len() > 0 {
            let d = Diagnostic::CircularDependencies { concepts: names };
            self.map.errors.push(d);
            assert(diagnostic_views(self.map.errors@) =~= reported.push(d@));
        }
        proof {
            let after = self@;
            lemma_count_bounds(pending@);
            assert(after.concepts == placed.concepts);
            assert(after.order == placed.order);
            assert(after.diagnostics =~= before.diagnostics + before.dangling_upto(
                before.concepts.len() as int,
            ) + after.cycle_report()) by {
                after.lemma_stuck_names_of(placed, after.concepts.len() as int);
            }
            before.lemma_dangling_bounded(before.concepts.len() as int);
            placed.lemma_order_of(after);
            after.lemma_peel_of(v);
            assert(after.closed()) by {
                assert forall|i: int, m: int|
                    0 <= i < after.concepts.len() && 0 <= m
                        < after.concepts[i].dependencies.len() implies after.has(
                    #[trigger] after.concepts[i].dependencies[m],
                ) by {
                    assert(v.resolves_to(v.concepts[i].dependencies, adjacency@[i]@));
                    let p = adjacency@[i]@[m] as int;
                    assert(after.concepts[p].name == after.concepts[i].dependencies[m]);
                }
            }
        }
    }

    /// The number of records taken in so far.
    pub fn records(&self) -> (n: usize)
        ensures
            n == self@.records,
    {
        self.map.records()
    }

    /// Hands the map over as it is.
    pub fn into_map(self) -> (m: ConceptMap)
        ensures
            m@ == self@,
    {
        self.map
    }

    /// Validates the map and hands it over.
    pub fn build(self) -> (m: ConceptMap)
        requires
            self@.wf(),
            self@.order.len() == 0,
        ensures
            self@.validates_to(m@),
    {
        let mut builder = self;
        builder.validate();
        builder.map
    }
}

impl MapView {
    /// No diagnostic for a dangling dependency names more concepts than a
    /// map can hold.
    pub proof fn lemma_dangling_bounded(self, count: int)
        ensures
            forall|k: int|
                0 <= k < self.dangling_upto(count).len() ==> (#[trigger] self.dangling_upto(
                    count,
                )[k]).bounded(),
        decreases count,
    {
        if count > 0 {
            self.lemma_dangling_bounded(count - 1);
            let c = self.concepts[count - 1];
            self.lemma_dangling_one_bounded(c, c.dependencies);
            let before = self.dangling_upto(count - 1);
            let last = self.dangling(c, c.dependencies);
            assert forall|k: int| 0 <= k < self.dangling_upto(count).len() implies (
            #[trigger] self.dangling_upto(count)[k]).bounded() by {
                if k < before.len() {
                    assert(self.dangling_upto(count)[k] == before[k]);
                } else {
                    assert(self.dangling_upto(count)[k] == last[k - before.len()]);
                }
            }
        }
    }

    /// Whether the order is in order, and whether it is at its fixed point,
    /// depends on the concepts and the order alone.
    pub proof fn lemma_order_of(self, other: MapView)
        requires
            self.concepts == other.concepts,
            self.order == other.order,
        ensures
            self.ordered() ==> other.ordered(),
            self.fixed_point() ==> other.fixed_point(),
    {
        assert forall|name: Seq<char>, k: int| #[trigger]
            self.placed_before(name, k) == other.placed_before(name, k) by {}
        if self.ordered() {
            assert forall|k: int, m: int|
                0 <= k < other.order.len() && 0 <= m
                    < other.concepts[other.order[k]].dependencies.len() implies #[trigger] other.placed_before(
                other.concepts[other.order[k]].dependencies[m],
                k,
            ) by {
                assert(self.placed_before(self.concepts[self.order[k]].dependencies[m], k));
            }
        }
        if self.fixed_point() {
            assert forall|i: int| #[trigger] other.stuck(i) implies exists|m: int|
                0 <= m < other.concepts[i].dependencies.len() && !other.placed_before(
                    #[trigger] other.concepts[i].dependencies[m],
                    other.order.len() as int,
                ) by {
                assert(self.stuck(i));
                let m = choose|m: int|
                    0 <= m < self.concepts[i].dependencies.len() && !self.placed_before(
                        #[trigger] self.concepts[i].dependencies[m],
                        self.order.len() as int,
                    );
                assert(!other.placed_before(
                    other.concepts[i].dependencies[m],
                    other.order.len() as int,
                ));
            }
        }
    }

    /// A concept that is left out is named among those left out.
    pub proof fn lemma_stuck_is_named(self, i: int, count: int)
        requires
            self.stuck(i),
            i < count,
        ensures
            self.stuck_names_upto(count).contains(self.concepts[i].name),
        decreases count,
    {
        let names = self.stuck_names_upto(count);
        if i == count - 1 {
            assert(names[names.len() - 1] == self.concepts[i].name);
        } else {
            self.lemma_stuck_is_named(i, count - 1);
            let before = self.stuck_names_upto(count - 1);
            let k = choose|k: int| 0 <= k < before.len() && before[k] == self.concepts[i].name;
            assert(names[k] == self.concepts[i].name);
        }
    }

    /// The sweep of a pass depends on the concepts and the order alone.
    pub proof fn lemma_sweep_of(self, other: MapView, i: int)
        requires
            self.concepts == other.concepts,
            self.order == other.order,
        ensures
            self.sweep(i) == other.sweep(i),
        decreases self.concepts.len() - i,
    {
        if 0 <= i < self.concepts.len() {
            assert forall|name: Seq<char>, k: int| #[trigger]
                self.placed_before(name, k) == other.placed_before(name, k) by {}
            assert(self.free(i) == other.free(i));
            if self.stuck(i) && self.free(i) {
                self.with_order(self.order.push(i)).lemma_sweep_of(
                    other.with_order(other.order.push(i)),
                    i + 1,
                );
            } else {
                self.lemma_sweep_of(other, i + 1);
            }
        }
    }

    /// The order that validation gives depends on the concepts alone.
    pub proof fn lemma_peel_of(self, other: MapView)
        requires
            self.concepts == other.concepts,
        ensures
            self.peeled() == other.peeled(),
    {
        self.with_order(Seq::empty()).lemma_peel_from(other.with_order(Seq::empty()));
    }

    /// The same, from any order.
    pub proof fn lemma_peel_from(self, other: MapView)
        requires
            self.concepts == other.concepts,
            self.order == other.order,
        ensures
            self.peel() == other.peel(),
        decreases self.concepts.len() - self.order.len(),
    {
        self.lemma_sweep_of(other, 0);
        let next = self.sweep(0);
        if !(next.len() <= self.order.len() || next.len() >= self.concepts.len()) {
            self.with_order(next).lemma_peel_from(other.with_order(next));
        }
    }

    /// Which concepts are left out depends on the concepts and the order
    /// alone.
    pub proof fn lemma_stuck_names_of(self, other: MapView, count: int)
        requires
            self.concepts == other.concepts,
            self.order == other.order,
        ensures
            self.stuck_names_upto(count) == other.stuck_names_upto(count),
        decreases count,
    {
        if count > 0 {
            self.lemma_stuck_names_of(other, count - 1);
        }
    }

    /// The same for the dependencies of one concept.
    pub proof fn lemma_dangling_one_bounded(self, c: ConceptView, deps: Seq<Seq<char>>)
        ensures
            forall|k: int|
                0 <= k < self.dangling(c, deps).len() ==> (#[trigger] self.dangling(
                    c,
                    deps,
                )[k]).bounded(),
        decreases deps.len(),
    {
        if deps.len() > 0 {
            self.lemma_dangling_one_bounded(c, deps.drop_last());
            let before = self.dangling(c, deps.drop_last());
            assert forall|k: int| 0 <= k < self.dangling(c, deps).len() implies (
            #[trigger] self.dangling(c, deps)[k]).bounded() by {
                if k < before.len() {
                    assert(self.dangling(c, deps)[k] == before[k]);
                }
            }
        }
    }
}

} // verus!
