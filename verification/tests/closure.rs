use concept_graph::closure::{ClosureMemo, SolveError};
use concept_graph::concept::ConceptRecord;
use concept_graph::map::{ConceptMap, ConceptMapBuilder};

fn build(records: &[(&str, &str)]) -> ConceptMap {
    let mut builder = ConceptMapBuilder::new();
    for (name, dependencies) in records {
        builder.add(ConceptRecord {
            concept: name.to_string(),
            dependencies: dependencies.to_string(),
            category: None,
            week: None,
            earliest: None,
            latest: None,
        });
    }
    builder.build()
}

fn names(map: &ConceptMap, offsets: &[usize]) -> Vec<String> {
    offsets.iter().map(|&i| map.concept(i).name().to_string()).collect()
}

#[test]
fn closure_of_a_chain() {
    let map = build(&[("A", "B"), ("B", "C"), ("C", "")]);
    let mut memo = ClosureMemo::new(&map);
    let a = map.closure_of(&mut memo, 0);
    assert_eq!(names(&map, &a), vec!["B", "C"]);
    assert_eq!(map.closure_of(&mut memo, 1), vec![2]);
    assert_eq!(map.closure_of(&mut memo, 2), Vec::<usize>::new());
}

#[test]
fn earliest_start_sums_the_closure_once() {
    let map = build(&[("A", "B"), ("B", "C"), ("C", "")]);
    let weights = [4.0f64, 1.5, 2.25];
    let closures = map.solve().unwrap();
    let earliest: Vec<f64> =
        closures.iter().map(|c| c.iter().map(|&d| weights[d]).sum()).collect();
    assert_eq!(earliest, vec![3.75, 2.25, 0.0]);
}

#[test]
fn shared_dependencies_count_once() {
    let map = build(&[("A", "B;C"), ("B", "D"), ("C", "D;B"), ("D", "")]);
    assert_eq!(map.solve(), Ok(vec![vec![1, 2, 3], vec![3], vec![1, 3], vec![]]));
}

#[test]
fn closure_leaves_the_concept_itself_out() {
    let map = build(&[("A", ""), ("B", "A"), ("C", "B;A")]);
    let closures = map.solve().unwrap();
    for (i, c) in closures.iter().enumerate() {
        assert!(!c.contains(&i));
    }
    assert_eq!(closures, vec![vec![], vec![0], vec![0, 1]]);
}

#[test]
fn empty_map_solves_to_nothing() {
    assert_eq!(ConceptMap::new().solve(), Ok(vec![]));
}

#[test]
fn unvalidated_or_circular_map_is_refused() {
    assert_eq!(build(&[("A", "B"), ("B", "A"), ("C", "")]).solve(), Err(SolveError::Unordered));
    assert_eq!(build(&[("A", "A")]).solve(), Err(SolveError::Unordered));
}

#[test]
fn descent_remembers_every_concept_on_the_way() {
    let map = build(&[("A", "B"), ("B", "C"), ("C", ""), ("D", "")]);
    let mut memo = ClosureMemo::new(&map);
    for i in 0..4 {
        assert!(!memo.is_memoized(i));
    }
    map.solve_dependency_transitive_closure(&mut memo, 0);
    assert!(memo.is_memoized(0));
    assert!(memo.is_memoized(1));
    assert!(memo.is_memoized(2));
    assert!(!memo.is_memoized(3));
    assert!(!memo.is_memoized(4));
}

#[test]
fn remembered_closure_is_returned_as_it_was() {
    let map = build(&[("A", "B;C"), ("B", "C"), ("C", "")]);
    let mut memo = ClosureMemo::new(&map);
    let first = map.closure_of(&mut memo, 0);
    assert!(memo.is_memoized(0));
    let again = map.closure_of(&mut memo, 0);
    assert_eq!(first, again);
    assert_eq!(again, vec![1, 2]);
    map.solve_dependency_transitive_closure(&mut memo, 0);
    assert_eq!(map.closure_of(&mut memo, 0), vec![1, 2]);
    assert_eq!(map.closure_of(&mut memo, 1), vec![2]);
}

#[test]
fn remembered_closure_does_not_look_at_the_map() {
    let first = build(&[("A", "Z"), ("P", ""), ("Z", "")]);
    let mut memo = ClosureMemo::new(&first);
    assert_eq!(first.closure_of(&mut memo, 0), vec![2]);
    assert!(memo.is_memoized(0));
    assert!(!memo.is_memoized(1));
    assert!(memo.is_memoized(2));

    let other = build(&[("A", "B"), ("B", ""), ("C", "")]);
    other.solve_dependency_transitive_closure(&mut memo, 0);
    assert!(!memo.is_memoized(1));
    assert_eq!(other.closure_of(&mut memo, 0), vec![2]);
    assert!(!memo.is_memoized(1));

    let circular = build(&[("A", "A")]);
    assert_eq!(circular.closure_of(&mut memo, 0), vec![2]);
    assert_eq!(circular.closure_of(&mut memo, 2), Vec::<usize>::new());
    assert!(!memo.is_memoized(1));
}
