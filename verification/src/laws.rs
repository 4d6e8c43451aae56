//! What holds of concept maps whatever the records: the laws that the rest
//! of the library is built to keep, each proved from the contracts.

use crate::closure::{is_closure, lists};
use crate::concept::RecordView;
use crate::diagnostics::{DiagnosticView, MAX_RECORDS};
use crate::map::MapView;
use crate::payload::{edges, edges_from, edges_upto};
use vstd::prelude::*;
use vstd::set_lib::*;

verus! {

/// The map that a builder holds after taking `records` in, in order.
pub open spec fn ingest(records: Seq<RecordView>) -> MapView
    decreases records.len(),
{
    if records.len() == 0 {
        MapView::empty()
    } else {
        ingest(records.drop_last()).add(records.last())
    }
}

/// Whether the concepts of `m` stand at their offsets under distinct names,
/// numbered by the records that brought them.
pub open spec fn sound(m: MapView) -> bool {
    m.numbered() && m.distinct() && m.concepts.len() <= m.records
}

/// One concept per name, record by record. Whatever the record, the map
/// after it holds exactly one concept of the record's name and no two
/// concepts of any name. Where the name was free, the record's concept was
/// added last and nothing is reported; where it was taken, the concepts are
/// as they were and one redundancy diagnostic was added.
pub proof fn law_one_concept_per_name(m: MapView, r: RecordView)
    requires
        sound(m),
    ensures
        sound(m.add(r)),
        m.add(r).has(r.name()),
        forall|p: int, q: int|
            0 <= p < m.add(r).concepts.len() && 0 <= q < m.add(r).concepts.len() && (
            #[trigger] m.add(r).concepts[p]).name == (#[trigger] m.add(r).concepts[q]).name ==> p
                == q,
        m.has(r.name()) ==> m.add(r).concepts == m.concepts && m.add(r).diagnostics
            == m.diagnostics.push(
            (DiagnosticView::RedundantConcept {
                name: r.name(),
                record: m.records + 1,
                first_record: m.concepts[m.position(r.name())].line,
            }),
        ),
        !m.has(r.name()) ==> m.add(r).concepts.len() == m.concepts.len() + 1 && m.add(
            r,
        ).concepts.last().name == r.name() && m.add(r).position(r.name()) == m.concepts.len()
            && m.add(r).diagnostics == m.diagnostics,
{
    let after = m.add(r);
    if m.has(r.name()) {
        let p = m.position(r.name());
        assert(after.concepts[p].name == r.name());
    } else {
        assert forall|i: int, j: int| 0 <= i < j < after.concepts.len() implies {
            let a = #[trigger] after.concepts[i];
            let b = #[trigger] after.concepts[j];
            a.name != b.name && a.line < b.line
        } by {
            assert(after.concepts[i] == m.concepts[i]);
            if j < m.concepts.len() {
                assert(after.concepts[j] == m.concepts[j]);
            }
        }
        assert(after.concepts[m.concepts.len() as int].name == r.name());
        after.lemma_position(r.name(), m.concepts.len() as int);
    }
    assert forall|p: int, q: int|
        0 <= p < after.concepts.len() && 0 <= q < after.concepts.len() && (
        #[trigger] after.concepts[p]).name == (#[trigger] after.concepts[q]).name implies p
        == q by {
        if p < q {
            assert(after.concepts[p].name != after.concepts[q].name);
        } else if q < p {
            assert(after.concepts[q].name != after.concepts[p].name);
        }
    }
}

/// Taking records in keeps the concepts sound and counts the records.
pub proof fn lemma_ingest_sound(records: Seq<RecordView>)
    ensures
        sound(ingest(records)),
        ingest(records).records == records.len(),
    decreases records.len(),
{
    if records.len() > 0 {
        lemma_ingest_sound(records.drop_last());
        law_one_concept_per_name(ingest(records.drop_last()), records.last());
    }
}

/// As long as a map can count them, taking records in gives a well-formed
/// map that has ordered nothing yet: one that can be validated.
pub proof fn law_ingest_is_well_formed(records: Seq<RecordView>)
    requires
        records.len() <= MAX_RECORDS,
    ensures
        ingest(records).wf(),
        ingest(records).records == records.len(),
        ingest(records).order.len() == 0,
    decreases records.len(),
{
    if records.len() > 0 {
        law_ingest_is_well_formed(records.drop_last());
        ingest(records.drop_last()).lemma_add_wf(records.last());
    }
}

/// Every concept of the map was named by a record.
pub proof fn lemma_ingest_names(records: Seq<RecordView>, name: Seq<char>)
    requires
        ingest(records).has(name),
    ensures
        exists|k: int| 0 <= k < records.len() && (#[trigger] records[k]).name() == name,
    decreases records.len(),
{
    if records.len() > 0 {
        let rest = records.drop_last();
        let prev = ingest(rest);
        let m = ingest(records);
        let p = choose|p: int| 0 <= p < m.concepts.len() && (#[trigger] m.concepts[p]).name == name;
        if p < prev.concepts.len() {
            assert(prev.concepts[p].name == name);
            lemma_ingest_names(rest, name);
            let k = choose|k: int| 0 <= k < rest.len() && (#[trigger] rest[k]).name() == name;
            assert(records[k].name() == name);
        } else {
            assert(records[records.len() - 1].name() == name);
        }
    }
}

/// The earliest record of a name is the one whose concept the map holds.
pub proof fn lemma_earliest_record_kept(records: Seq<RecordView>, i: int)
    requires
        0 <= i < records.len(),
        forall|k: int| 0 <= k < i ==> (#[trigger] records[k]).name() != records[i].name(),
    ensures
        ingest(records).has(records[i].name()),
        ({
            let m = ingest(records);
            let c = m.concepts[m.position(records[i].name())];
            &&& c.name == records[i].name()
            &&& c.line == i + 1
            &&& c.category == records[i].category_name()
            &&& c.dependencies == records[i].dependency_names()
        }),
    decreases records.len(),
{
    let rest = records.drop_last();
    let prev = ingest(rest);
    let m = ingest(records);
    let name = records[i].name();
    lemma_ingest_sound(rest);
    lemma_ingest_sound(records);
    if i == records.len() - 1 {
        if prev.has(name) {
            lemma_ingest_names(rest, name);
            let k = choose|k: int| 0 <= k < rest.len() && (#[trigger] rest[k]).name() == name;
            assert(records[k].name() == name);
        }
        let p = prev.concepts.len() as int;
        assert(m.concepts[p].name == name);
        m.lemma_position(name, p);
    } else {
        assert(rest[i] == records[i]);
        assert forall|k: int| 0 <= k < i implies (#[trigger] rest[k]).name() != rest[i].name() by {
            assert(rest[k] == records[k]);
        }
        lemma_earliest_record_kept(rest, i);
        let p = prev.position(name);
        assert(m.concepts[p] == prev.concepts[p]);
        m.lemma_position(name, p);
    }
}

/// Uniqueness. Where two records give the same name, the map holds exactly
/// one concept of that name, it is the one of the earliest such record, and
/// the later record is reported as redundant with the earliest.
pub proof fn law_first_record_wins(records: Seq<RecordView>, i: int, j: int)
    requires
        0 <= i < j < records.len(),
        records[i].name() == records[j].name(),
        forall|k: int| 0 <= k < i ==> (#[trigger] records[k]).name() != records[i].name(),
    ensures
        ingest(records).has(records[i].name()),
        forall|p: int, q: int|
            0 <= p < ingest(records).concepts.len() && 0 <= q < ingest(records).concepts.len() && (
            #[trigger] ingest(records).concepts[p]).name == records[i].name() && (
            #[trigger] ingest(records).concepts[q]).name == records[i].name() ==> p == q,
        ({
            let m = ingest(records);
            let c = m.concepts[m.position(records[i].name())];
            &&& c.line == i + 1
            &&& c.category == records[i].category_name()
            &&& c.dependencies == records[i].dependency_names()
        }),
        ingest(records).diagnostics.contains(
            DiagnosticView::RedundantConcept {
                name: records[i].name(),
                record: (j + 1) as nat,
                first_record: (i + 1) as nat,
            },
        ),
    decreases records.len(),
{
    let rest = records.drop_last();
    let prev = ingest(rest);
    let m = ingest(records);
    let name = records[i].name();
    let d = DiagnosticView::RedundantConcept {
        name,
        record: (j + 1) as nat,
        first_record: (i + 1) as nat,
    };
    lemma_ingest_sound(rest);
    lemma_ingest_sound(records);
    lemma_earliest_record_kept(records, i);
    assert(rest[i] == records[i]);
    assert forall|k: int| 0 <= k < i implies (#[trigger] rest[k]).name() != rest[i].name() by {
        assert(rest[k] == records[k]);
    }
    if j == records.len() - 1 {
        lemma_earliest_record_kept(rest, i);
        assert(m.diagnostics[prev.diagnostics.len() as int] == d);
    } else {
        assert(rest[j] == records[j]);
        law_first_record_wins(rest, i, j);
        let k = choose|k: int| 0 <= k < prev.diagnostics.len() && prev.diagnostics[k] == d;
        assert(m.diagnostics[k] == d);
    }
    assert forall|p: int, q: int|
        0 <= p < m.concepts.len() && 0 <= q < m.concepts.len() && (#[trigger] m.concepts[p]).name
            == name && (#[trigger] m.concepts[q]).name == name implies p == q by {
        if p < q {
            assert(m.concepts[p].name != m.concepts[q].name);
        } else if q < p {
            assert(m.concepts[q].name != m.concepts[p].name);
        }
    }
}

/// Reference integrity. In a validated map every dependency of every
/// concept names a concept of the map.
pub proof fn law_references_resolve(before: MapView, after: MapView, i: int, m: int)
    requires
        before.validates_to(after),
        0 <= i < after.concepts.len(),
        0 <= m < after.concepts[i].dependencies.len(),
    ensures
        after.has(after.concepts[i].dependencies[m]),
        0 <= after.position(after.concepts[i].dependencies[m]) < after.concepts.len(),
        after.concepts[after.position(after.concepts[i].dependencies[m])].name
            == after.concepts[i].dependencies[m],
{
}

/// Total order. Where validation placed every concept, the order holds
/// every concept exactly once.
pub proof fn law_every_concept_once(v: MapView)
    requires
        v.wf(),
        v.complete(),
    ensures
        v.order.no_duplicates(),
        forall|i: int| 0 <= i < v.concepts.len() ==> v.order.contains(i),
        forall|k: int| 0 <= k < v.order.len() ==> 0 <= (#[trigger] v.order[k]) < v.concepts.len(),
{
    assert forall|i: int| 0 <= i < v.concepts.len() implies v.order.contains(i) by {
        v.lemma_covers(i);
    }
}

/// Dependencies first. In the order, every placed concept stands after each
/// concept that it depends on, directly or through others.
pub proof fn law_dependencies_first(v: MapView, a: int, b: int)
    requires
        v.wf(),
        v.order.contains(a),
        v.reaches(a, b),
    ensures
        v.order.contains(b),
        0 <= v.rank(b) < v.rank(a) < v.order.len(),
        v.order[v.rank(a)] == a,
        v.order[v.rank(b)] == b,
{
    let steps = choose|steps: nat| v.reaches_in(a, b, steps);
    v.lemma_reach_rank(a, b, steps);
}

/// Cycle detection. A concept that depends on itself, directly or through
/// others, is never placed: it is among the concepts reported as circular,
/// and the order is not complete.
pub proof fn law_cycles_are_reported(v: MapView, x: int)
    requires
        v.wf(),
        v.reaches(x, x),
    ensures
        v.stuck(x),
        !v.complete(),
        v.stuck_names().contains(v.concepts[x].name),
        v.cycle_report() == seq![DiagnosticView::CircularDependencies { concepts: v.stuck_names() }],
{
    v.lemma_reach_in_range(x, x);
    if v.order.contains(x) {
        law_dependencies_first(v, x, x);
    }
    if v.complete() {
        v.lemma_covers(x);
    }
    v.lemma_stuck_is_named(x, v.concepts.len() as int);
}

/// What depends on a circle is reported with it. A concept that has among
/// its transitive dependencies one that depends on itself is never placed,
/// and is among the concepts reported as circular.
pub proof fn law_dependents_of_cycles_are_reported(v: MapView, i: int, x: int)
    requires
        v.wf(),
        v.reaches(i, x),
        v.reaches(x, x),
    ensures
        v.stuck(i),
        v.stuck_names().contains(v.concepts[i].name),
{
    v.lemma_reach_in_range(i, x);
    law_cycles_are_reported(v, x);
    if v.order.contains(i) {
        law_dependencies_first(v, i, x);
    }
    v.lemma_stuck_is_named(i, v.concepts.len() as int);
}

/// A dependency of the concept at offset `i` that the order leaves out.
pub open spec fn stuck_dependency(v: MapView, i: int) -> int {
    choose|q: int| v.edge(i, q) && v.stuck(q)
}

/// The concept reached from the one at offset `i` by following a stuck
/// dependency `steps` times.
pub open spec fn descent(v: MapView, i: int, steps: nat) -> int
    decreases steps,
{
    if steps == 0 {
        i
    } else {
        stuck_dependency(v, descent(v, i, (steps - 1) as nat))
    }
}

/// At the fixed point, a concept that is left out depends on one that is
/// left out.
pub proof fn lemma_stuck_dependency(v: MapView, i: int)
    requires
        v.distinct(),
        v.closed(),
        v.fixed_point(),
        v.stuck(i),
    ensures
        v.edge(i, stuck_dependency(v, i)),
        v.stuck(stuck_dependency(v, i)),
{
    let m = choose|m: int|
        0 <= m < v.concepts[i].dependencies.len() && !v.placed_before(
            #[trigger] v.concepts[i].dependencies[m],
            v.order.len() as int,
        );
    let name = v.concepts[i].dependencies[m];
    assert(v.has(name));
    let q = v.position(name);
    if v.order.contains(q) {
        let k = choose|k: int| 0 <= k < v.order.len() && v.order[k] == q;
        assert(v.concepts[v.order[k]].name == name);
        assert(v.placed_before(name, v.order.len() as int));
    }
    assert(v.edge(i, q) && v.stuck(q));
}

/// Every concept of a descent from a stuck concept is stuck.
pub proof fn lemma_descent_stuck(v: MapView, i: int, steps: nat)
    requires
        v.distinct(),
        v.closed(),
        v.fixed_point(),
        v.stuck(i),
    ensures
        v.stuck(descent(v, i, steps)),
    decreases steps,
{
    if steps > 0 {
        lemma_descent_stuck(v, i, (steps - 1) as nat);
        lemma_stuck_dependency(v, descent(v, i, (steps - 1) as nat));
    }
}

/// Later concepts of a descent are transitive dependencies of earlier ones.
pub proof fn lemma_descent_reaches(v: MapView, i: int, s: nat, t: nat)
    requires
        v.distinct(),
        v.closed(),
        v.fixed_point(),
        v.stuck(i),
        s < t,
    ensures
        v.reaches(descent(v, i, s), descent(v, i, t)),
    decreases t - s,
{
    lemma_descent_stuck(v, i, s);
    lemma_stuck_dependency(v, descent(v, i, s));
    assert(descent(v, i, s + 1) == stuck_dependency(v, descent(v, i, s)));
    if t == s + 1 {
        v.lemma_reach_edge(descent(v, i, s), descent(v, i, t));
    } else {
        lemma_descent_reaches(v, i, s + 1, t);
        v.lemma_reach_step(descent(v, i, s), descent(v, i, s + 1), descent(v, i, t));
    }
}

/// Cycle detection, the other way round. At the fixed point, a concept is
/// left out only where dependencies go in a circle: from every concept that
/// is left out, a concept that depends on itself can be reached.
pub proof fn law_stuck_means_cycle(v: MapView, i: int) -> (x: int)
    requires
        v.distinct(),
        v.closed(),
        v.fixed_point(),
        v.stuck(i),
    ensures
        v.reaches(x, x),
        v.stuck(x),
        x == i || v.reaches(i, x),
{
    let n = v.concepts.len();
    let walk = Seq::new(n + 1, |t: int| descent(v, i, t as nat));
    assert forall|t: int| 0 <= t < walk.len() implies 0 <= #[trigger] walk[t] < n by {
        lemma_descent_stuck(v, i, t as nat);
    }
    if walk.no_duplicates() {
        walk.unique_seq_to_set();
        lemma_int_range(0, n as int);
        assert(walk.to_set().subset_of(set_int_range(0, n as int))) by {
            assert forall|y: int| walk.to_set().contains(y) implies set_int_range(
                0,
                n as int,
            ).contains(y) by {
                let t = choose|t: int| 0 <= t < walk.len() && walk[t] == y;
                assert(0 <= walk[t] < n);
            }
        }
        lemma_len_subset(walk.to_set(), set_int_range(0, n as int));
        assert(false);
    }
    let (s, t) = choose|s: int, t: int|
        0 <= s < walk.len() && 0 <= t < walk.len() && s != t && walk[s] == walk[t];
    let (a, b) = if s < t {
        (s, t)
    } else {
        (t, s)
    };
    let x = walk[a];
    lemma_descent_reaches(v, i, a as nat, b as nat);
    lemma_descent_stuck(v, i, a as nat);
    if a > 0 {
        lemma_descent_reaches(v, i, 0, a as nat);
    }
    x
}

/// Where concepts are left out, one of them has a name to report.
pub proof fn lemma_stuck_names_witness(v: MapView, count: int) -> (i: int)
    requires
        v.stuck_names_upto(count).len() > 0,
    ensures
        v.stuck(i),
        i < count,
    decreases count,
{
    if v.stuck(count - 1) {
        count - 1
    } else {
        lemma_stuck_names_witness(v, count - 1)
    }
}

/// Acyclicity gives a total order. Where no concept of a validated map
/// depends on itself, directly or through others, validation places every
/// concept and reports no circle.
pub proof fn law_acyclic_is_ordered(before: MapView, after: MapView)
    requires
        before.validates_to(after),
        forall|x: int| !after.reaches(x, x),
    ensures
        after.complete(),
        after.cycle_report() == Seq::<DiagnosticView>::empty(),
        forall|i: int| 0 <= i < after.concepts.len() ==> after.order.contains(i),
{
    if after.stuck_names().len() > 0 {
        let i = lemma_stuck_names_witness(after, after.concepts.len() as int);
        let x = law_stuck_means_cycle(after, i);
        assert(false);
    }
    law_every_concept_once(after);
}

/// Two strictly rising lists with the same members are the same list.
pub proof fn lemma_rising_lists_agree(r: Seq<usize>, s: Seq<usize>)
    requires
        forall|a: int, b: int| 0 <= a < b < r.len() ==> (#[trigger] r[a]) < (#[trigger] r[b]),
        forall|a: int, b: int| 0 <= a < b < s.len() ==> (#[trigger] s[a]) < (#[trigger] s[b]),
        forall|x: usize| r.contains(x) <==> s.contains(x),
    ensures
        r == s,
    decreases r.len(),
{
    if r.len() == 0 {
        if s.len() > 0 {
            assert(s.contains(s[0]));
        }
        assert(r =~= s);
    } else {
        assert(r.contains(r.last()));
        assert(s.contains(r.last()));
        let t = choose|t: int| 0 <= t < s.len() && s[t] == r.last();
        assert(s.contains(s.last()));
        let u = choose|u: int| 0 <= u < r.len() && r[u] == s.last();
        assert(t == s.len() - 1) by {
            if t < s.len() - 1 {
                assert(s[t] < s[s.len() - 1]);
                if u < r.len() - 1 {
                    assert(r[u] < r[r.len() - 1]);
                }
            }
        }
        let r0 = r.drop_last();
        let s0 = s.drop_last();
        assert forall|x: usize| r0.contains(x) <==> s0.contains(x) by {
            if r0.contains(x) {
                let a = choose|a: int| 0 <= a < r0.len() && r0[a] == x;
                assert(r[a] == x);
                assert(r[a] < r[r.len() - 1]);
                assert(r.contains(x));
                let b = choose|b: int| 0 <= b < s.len() && s[b] == x;
                assert(s0[b] == x);
            }
            if s0.contains(x) {
                let b = choose|b: int| 0 <= b < s0.len() && s0[b] == x;
                assert(s[b] == x);
                assert(s[b] < s[s.len() - 1]);
                assert(s.contains(x));
                let a = choose|a: int| 0 <= a < r.len() && r[a] == x;
                assert(r0[a] == x);
            }
        }
        lemma_rising_lists_agree(r0, s0);
        assert(r =~= r0.push(r.last()));
        assert(s =~= s0.push(s.last()));
    }
}

/// Closures are functions of the map. Whatever two calls return as the
/// closure of one concept of one map, remembered or worked out anew, is the
/// same list.
pub proof fn law_closure_is_unique(v: MapView, p: int, r: Seq<usize>, s: Seq<usize>)
    requires
        is_closure(v, p, r),
        is_closure(v, p, s),
    ensures
        r == s,
{
    assert forall|x: usize| r.contains(x) <==> s.contains(x) by {
        if r.contains(x) {
            let a = choose|a: int| 0 <= a < r.len() && r[a] == x;
            assert(v.reaches(p, r[a] as int));
        }
        if s.contains(x) {
            let a = choose|a: int| 0 <= a < s.len() && s[a] == x;
            assert(v.reaches(p, s[a] as int));
        }
    }
    lemma_rising_lists_agree(r, s);
}

/// A remembered closure is returned as the same list every time: a set of
/// offsets has one rising list.
pub proof fn law_listing_is_unique(r: Seq<usize>, s: Seq<usize>, set: Set<int>)
    requires
        lists(r, set),
        lists(s, set),
    ensures
        r == s,
{
    assert forall|x: usize| r.contains(x) <==> s.contains(x) by {
        if r.contains(x) {
            let a = choose|a: int| 0 <= a < r.len() && r[a] == x;
            assert(set.contains(r[a] as int));
        }
        if s.contains(x) {
            let a = choose|a: int| 0 <= a < s.len() && s[a] == x;
            assert(set.contains(s[a] as int));
        }
    }
    lemma_rising_lists_agree(r, s);
}

/// How many dependencies the first `k` concepts list, all together.
pub open spec fn dependency_count(v: MapView, k: int) -> int
    decreases k,
{
    if k <= 0 {
        0
    } else {
        dependency_count(v, k - 1) + v.concepts[k - 1].dependencies.len()
    }
}

/// The edges of the first `k` concepts are as many as their dependencies,
/// and the edges of the concept at offset `i` follow those of the concepts
/// before it.
pub proof fn lemma_edges_upto(v: MapView, k: int, i: int, m: int)
    requires
        0 <= i < k,
        0 <= m < v.concepts[i].dependencies.len(),
    ensures
        edges_upto(v, k).len() == dependency_count(v, k),
        0 <= dependency_count(v, i),
        dependency_count(v, i) + m < edges_upto(v, k).len(),
        edges_upto(v, k)[dependency_count(v, i) + m] == (
            i,
            v.position(v.concepts[i].dependencies[m]),
        ),
    decreases k,
{
    lemma_edges_count(v, k);
    lemma_edges_count(v, i);
    lemma_edges_count(v, k - 1);
    let own = edges_from(v, k - 1, v.concepts[k - 1].dependencies.len() as int);
    lemma_edges_from(v, k - 1, v.concepts[k - 1].dependencies.len() as int, 0);
    if i == k - 1 {
        lemma_edges_from(v, i, v.concepts[i].dependencies.len() as int, m);
        assert(edges_upto(v, k)[dependency_count(v, i) + m] == own[m]);
    } else {
        lemma_edges_upto(v, k - 1, i, m);
    }
}

/// The edges of the first `k` concepts are as many as their dependencies.
pub proof fn lemma_edges_count(v: MapView, k: int)
    ensures
        k >= 0 ==> edges_upto(v, k).len() == dependency_count(v, k),
        0 <= dependency_count(v, k),
    decreases k,
{
    if k > 0 {
        lemma_edges_count(v, k - 1);
        lemma_edges_from(v, k - 1, v.concepts[k - 1].dependencies.len() as int, 0);
    }
}

/// The first `count` dependencies of a concept give `count` edges, the one
/// at `m` to the concept that the dependency at `m` names.
pub proof fn lemma_edges_from(v: MapView, p: int, count: int, m: int)
    requires
        0 <= count,
    ensures
        edges_from(v, p, count).len() == count,
        0 <= m < count ==> edges_from(v, p, count)[m] == (
            p,
            v.position(v.concepts[p].dependencies[m]),
        ),
    decreases count,
{
    if count > 0 {
        lemma_edges_from(v, p, count - 1, m);
    }
}

/// Every surviving dependency is drawn, once. The edges of a map are as
/// many as the dependencies of its concepts, and each dependency of each
/// concept, ordered or not, has its own edge, from the concept to the
/// concept that the dependency names.
pub proof fn law_every_dependency_is_an_edge(v: MapView, i: int, m: int)
    requires
        v.distinct(),
        v.closed(),
        0 <= i < v.concepts.len(),
        0 <= m < v.concepts[i].dependencies.len(),
    ensures
        edges(v).len() == dependency_count(v, v.concepts.len() as int),
        0 <= dependency_count(v, i) + m < edges(v).len(),
        edges(v)[dependency_count(v, i) + m] == (i, v.position(v.concepts[i].dependencies[m])),
        v.edge(i, v.position(v.concepts[i].dependencies[m])),
        v.concepts[v.position(v.concepts[i].dependencies[m])].name == v.concepts[i].dependencies[m],
{
    lemma_edges_upto(v, v.concepts.len() as int, i, m);
    assert(v.has(v.concepts[i].dependencies[m]));
}

} // verus!
