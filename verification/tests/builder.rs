use concept_graph::concept::{Concept, ConceptRecord};
use concept_graph::diagnostics::Diagnostic;
use concept_graph::map::{AddOutcome, ConceptMap, ConceptMapBuilder};

fn record(name: &str, dependencies: &str, category: Option<&str>) -> ConceptRecord {
    ConceptRecord {
        concept: name.to_string(),
        dependencies: dependencies.to_string(),
        category: category.map(|c| c.to_string()),
        week: None,
        earliest: None,
        latest: None,
    }
}

#[test]
fn new_concept_is_trimmed_and_bare() {
    let r = record("  sorting \t", "a;b", Some(" algorithms\n"));
    let c = Concept::new(&r, 7);
    assert_eq!(c.name(), "sorting");
    assert_eq!(c.category(), "algorithms");
    assert_eq!(c.line(), 7);
    assert_eq!(c.offset(), 0);
    assert!(c.dependencies().is_empty());
}

#[test]
fn new_concept_without_category_is_uncategorized() {
    let c = Concept::new(&record("graphs", "", None), 1);
    assert_eq!(c.category(), "");
}

#[test]
fn add_dependencies_replaces_the_list() {
    let mut c = Concept::new(&record("graphs", "", None), 1);
    c.add_dependencies(vec!["trees".to_string(), "sets".to_string()]);
    assert_eq!(c.dependencies(), &vec!["trees".to_string(), "sets".to_string()]);
    c.add_dependencies(vec!["maps".to_string()]);
    assert_eq!(c.dependencies(), &vec!["maps".to_string()]);
    assert_eq!(c.name(), "graphs");
}

#[test]
fn add_offset_moves_the_concept() {
    let mut c = Concept::new(&record("graphs", "", None), 1);
    c.add_offset(4);
    assert_eq!(c.offset(), 4);
    assert_eq!(c.line(), 1);
}

#[test]
fn read_dependencies_splits_the_field() {
    let mut c = Concept::new(&record("graphs", "", None), 1);
    c.read_dependencies(&record("graphs", " trees ;; sets;", None));
    assert_eq!(c.dependencies(), &vec!["trees".to_string(), "sets".to_string()]);
}

#[test]
fn with_dependencies_copies_the_rest() {
    let mut c = Concept::new(&record("graphs", "", Some("data")), 3);
    c.add_offset(2);
    let d = c.with_dependencies(vec!["trees".to_string()]);
    assert_eq!(d.name(), "graphs");
    assert_eq!(d.category(), "data");
    assert_eq!(d.line(), 3);
    assert_eq!(d.offset(), 2);
    assert_eq!(d.dependencies(), &vec!["trees".to_string()]);
    assert!(c.dependencies().is_empty());
}

#[test]
fn is_named_compares_the_name() {
    let c = Concept::new(&record(" graphs", "", None), 1);
    assert!(c.is_named(&"graphs".to_string()));
    assert!(!c.is_named(&" graphs".to_string()));
    assert!(!c.is_named(&"graph".to_string()));
}

#[test]
fn empty_map_has_nothing() {
    let map = ConceptMap::new();
    assert_eq!(map.len(), 0);
    assert_eq!(map.records(), 0);
    assert!(map.dependency_order().is_empty());
    assert!(map.diagnostics().is_empty());
    assert_eq!(map.errs(), None);
    assert_eq!(map.position_of("anything"), None);
}

#[test]
fn concepts_take_their_places_in_order() {
    let mut builder = ConceptMapBuilder::new();
    assert_eq!(builder.add(record("a", "", None)), AddOutcome::Inserted { position: 0 });
    assert_eq!(builder.add(record("b", "a", None)), AddOutcome::Inserted { position: 1 });
    assert_eq!(builder.add(record("c", "a;b", None)), AddOutcome::Inserted { position: 2 });
    let map = builder.build();
    assert_eq!(map.len(), 3);
    for (i, name) in ["a", "b", "c"].iter().enumerate() {
        assert_eq!(map.concept(i).name(), *name);
        assert_eq!(map.concept(i).offset(), i);
        assert_eq!(map.concept(i).line(), i + 1);
        assert_eq!(map.position_of(name), Some(i));
        assert_eq!(map.dependency_to_concept(name).offset(), i);
    }
    assert_eq!(map.position_of("d"), None);
    assert_eq!(map.errs(), None);
}

#[test]
fn repeated_name_keeps_the_first_concept() {
    let mut builder = ConceptMapBuilder::new();
    assert_eq!(
        builder.add(record("loops", "", Some("basics"))),
        AddOutcome::Inserted { position: 0 }
    );
    assert_eq!(
        builder.add(record("recursion", "loops", Some("basics"))),
        AddOutcome::Inserted { position: 1 }
    );
    assert_eq!(
        builder.add(record(" loops ", "recursion", Some("advanced"))),
        AddOutcome::Redundant { first_record: 1 }
    );
    let map = builder.build();
    assert_eq!(map.len(), 2);
    assert_eq!(map.records(), 3);
    assert_eq!(map.concept(0).name(), "loops");
    assert_eq!(map.concept(0).category(), "basics");
    assert_eq!(map.concept(0).line(), 1);
    assert!(map.concept(0).dependencies().is_empty());
    assert_eq!(
        map.diagnostics(),
        &vec![Diagnostic::RedundantConcept {
            name: "loops".to_string(),
            record: 3,
            first_record: 1
        }]
    );
    assert_eq!(
        map.errs().unwrap(),
        "- Found redundant copy of concept \"loops\" in record 3 (redundant with record 1). Ignoring concept entry.\n"
    );
}

#[test]
fn records_are_numbered_whether_kept_or_not() {
    let mut builder = ConceptMapBuilder::new();
    builder.add(record("a", "", None));
    builder.add(record("a", "", None));
    builder.add(record("a", "", None));
    assert_eq!(builder.add(record("b", "", None)), AddOutcome::Inserted { position: 1 });
    assert_eq!(builder.add(record("b", "", None)), AddOutcome::Redundant { first_record: 4 });
    let map = builder.build();
    assert_eq!(map.records(), 5);
    assert_eq!(map.concept(1).line(), 4);
    assert_eq!(
        map.diagnostics(),
        &vec![
            Diagnostic::RedundantConcept { name: "a".to_string(), record: 2, first_record: 1 },
            Diagnostic::RedundantConcept { name: "a".to_string(), record: 3, first_record: 1 },
            Diagnostic::RedundantConcept { name: "b".to_string(), record: 5, first_record: 4 },
        ]
    );
}

#[test]
fn names_differing_inside_are_different_concepts() {
    let mut builder = ConceptMapBuilder::new();
    builder.add(record("big o", "", None));
    assert_eq!(builder.add(record("big  o", "", None)), AddOutcome::Inserted { position: 1 });
    assert_eq!(builder.add(record("Big o", "", None)), AddOutcome::Inserted { position: 2 });
    assert_eq!(builder.build().len(), 3);
}
