use concept_graph::closure::SolveError;
use concept_graph::concept::ConceptRecord;
use concept_graph::diagnostics::{report, Diagnostic};
use concept_graph::map::{ConceptMap, ConceptMapBuilder};

fn record(name: &str, dependencies: &str) -> ConceptRecord {
    ConceptRecord {
        concept: name.to_string(),
        dependencies: dependencies.to_string(),
        category: None,
        week: None,
        earliest: None,
        latest: None,
    }
}

fn build(records: &[(&str, &str)]) -> ConceptMap {
    let mut builder = ConceptMapBuilder::new();
    for (name, dependencies) in records {
        builder.add(record(name, dependencies));
    }
    builder.build()
}

fn order_names(map: &ConceptMap) -> Vec<String> {
    map.dependency_order().iter().map(|&i| map.concept(i).name().to_string()).collect()
}

fn strings(items: &[&str]) -> Vec<String> {
    items.iter().map(|s| s.to_string()).collect()
}

#[test]
fn dangling_dependency_is_dropped_and_reported() {
    let map = build(&[("A", "B;X"), ("B", "Y; A ;Z")]);
    assert_eq!(map.concept(0).dependencies(), &strings(&["B"]));
    assert_eq!(map.concept(1).dependencies(), &strings(&["A"]));
    assert_eq!(
        &map.diagnostics()[..3],
        &[
            Diagnostic::DanglingDependency {
                dependency: "X".to_string(),
                concept: "A".to_string(),
                record: 1
            },
            Diagnostic::DanglingDependency {
                dependency: "Y".to_string(),
                concept: "B".to_string(),
                record: 2
            },
            Diagnostic::DanglingDependency {
                dependency: "Z".to_string(),
                concept: "B".to_string(),
                record: 2
            },
        ]
    );
}

#[test]
fn dangling_dependency_report_line() {
    let map = build(&[("A", "X")]);
    assert_eq!(
        map.errs().unwrap(),
        "- Dependency on \"X\" in concept \"A\" in record 1 does not correspond to a concept. Ignoring dependency.\n"
    );
    assert_eq!(order_names(&map), strings(&["A"]));
}

#[test]
fn dependency_on_a_dropped_duplicate_resolves_to_the_first() {
    let map = build(&[("A", ""), ("A", "B"), ("B", "A")]);
    assert_eq!(map.len(), 2);
    assert_eq!(map.concept(1).dependencies(), &strings(&["A"]));
    assert_eq!(map.diagnostics().len(), 1);
    assert_eq!(order_names(&map), strings(&["A", "B"]));
}

#[test]
fn every_dependency_resolves_after_validation() {
    let map = build(&[("A", "B;nowhere"), ("B", "C;A;void"), ("C", ""), ("D", "D;E")]);
    for i in 0..map.len() {
        for d in map.concept(i).dependencies() {
            assert!(map.position_of(d).is_some());
        }
    }
}

#[test]
fn chain_is_ordered_dependencies_first() {
    let map = build(&[("A", "B"), ("B", "C"), ("C", "")]);
    assert_eq!(map.dependency_order(), &vec![2, 1, 0]);
    assert_eq!(order_names(&map), strings(&["C", "B", "A"]));
    assert_eq!(map.errs(), None);
}

#[test]
fn concept_freed_in_a_pass_frees_later_ones_in_that_pass() {
    let map = build(&[("C", ""), ("B", "C"), ("A", "B")]);
    assert_eq!(map.dependency_order(), &vec![0, 1, 2]);
}

#[test]
fn passes_go_by_offset() {
    let map = build(&[("A", "D"), ("B", ""), ("C", "A"), ("D", "B"), ("E", "")]);
    assert_eq!(order_names(&map), strings(&["B", "D", "E", "A", "C"]));
}

#[test]
fn order_holds_every_concept_once_and_dependencies_first() {
    let map = build(&[
        ("A", "B;C"),
        ("B", "D"),
        ("C", "D;E"),
        ("D", ""),
        ("E", "F"),
        ("F", ""),
        ("G", "A;F"),
    ]);
    let order = map.dependency_order();
    assert_eq!(order.len(), map.len());
    let mut seen = vec![false; map.len()];
    for &i in order {
        assert!(!seen[i]);
        for d in map.concept(i).dependencies() {
            assert!(seen[map.position_of(d).unwrap()]);
        }
        seen[i] = true;
    }
    assert!(seen.iter().all(|&s| s));
}

#[test]
fn mutual_dependency_is_reported_and_nothing_ordered() {
    let map = build(&[("A", "B"), ("B", "A")]);
    assert!(map.dependency_order().is_empty());
    assert_eq!(
        map.diagnostics(),
        &vec![Diagnostic::CircularDependencies { concepts: strings(&["A", "B"]) }]
    );
    assert_eq!(
        map.errs().unwrap(),
        "- Circular conceptual dependencies including (or depended on by) 2 concepts: A, B.\n"
    );
    assert_eq!(map.solve(), Err(SolveError::Unordered));
}

#[test]
fn self_dependency_is_a_cycle() {
    let map = build(&[("A", "A")]);
    assert!(map.dependency_order().is_empty());
    assert_eq!(
        map.errs().unwrap(),
        "- Circular conceptual dependencies including (or depended on by) 1 concepts: A.\n"
    );
}

#[test]
fn what_depends_on_a_cycle_is_stuck_with_it() {
    let map = build(&[("free", ""), ("A", "B;free"), ("B", "C"), ("C", "A"), ("D", "A"), ("E", "free")]);
    assert_eq!(order_names(&map), strings(&["free", "E"]));
    assert_eq!(
        map.diagnostics(),
        &vec![Diagnostic::CircularDependencies { concepts: strings(&["A", "B", "C", "D"]) }]
    );
    assert_eq!(
        map.errs().unwrap(),
        "- Circular conceptual dependencies including (or depended on by) 4 concepts: A, B, C, D.\n"
    );
}

#[test]
fn diagnostics_come_in_the_order_found() {
    let map = build(&[("A", "B;X"), ("A", ""), ("B", "A")]);
    assert_eq!(
        map.errs().unwrap(),
        "- Found redundant copy of concept \"A\" in record 2 (redundant with record 1). Ignoring concept entry.\n\
         - Dependency on \"X\" in concept \"A\" in record 1 does not correspond to a concept. Ignoring dependency.\n\
         - Circular conceptual dependencies including (or depended on by) 2 concepts: A, B.\n"
    );
}

#[test]
fn report_of_nothing_is_empty() {
    assert_eq!(report(&Vec::new()), "");
}

#[test]
fn each_diagnostic_writes_its_line() {
    assert_eq!(
        Diagnostic::RedundantConcept { name: "a b".to_string(), record: 12, first_record: 3 }
            .to_text(),
        "- Found redundant copy of concept \"a b\" in record 12 (redundant with record 3). Ignoring concept entry.\n"
    );
    assert_eq!(
        Diagnostic::DanglingDependency {
            dependency: "x".to_string(),
            concept: "y".to_string(),
            record: 100
        }
        .to_text(),
        "- Dependency on \"x\" in concept \"y\" in record 100 does not correspond to a concept. Ignoring dependency.\n"
    );
    assert_eq!(
        Diagnostic::CircularDependencies { concepts: strings(&["one", "two", "three"]) }.to_text(),
        "- Circular conceptual dependencies including (or depended on by) 3 concepts: one, two, three.\n"
    );
    assert_eq!(
        Diagnostic::CircularDependencies { concepts: strings(&[]) }.to_text(),
        "- Circular conceptual dependencies including (or depended on by) 0 concepts: .\n"
    );
}

#[test]
fn validate_leaves_the_builder_validated() {
    let mut builder = ConceptMapBuilder::new();
    builder.add(record("A", "B;X"));
    builder.add(record("B", ""));
    builder.validate();
    let map = builder.into_map();
    assert_eq!(map.dependency_order(), &vec![1, 0]);
    assert_eq!(map.diagnostics().len(), 1);
}
