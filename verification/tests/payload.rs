use concept_graph::concept::ConceptRecord;
use concept_graph::map::{ConceptMap, ConceptMapBuilder};
use concept_graph::payload::{palette_color, PALETTE_SIZE};

fn build(records: &[(&str, &str, Option<&str>)]) -> ConceptMap {
    let mut builder = ConceptMapBuilder::new();
    for (name, dependencies, category) in records {
        builder.add(ConceptRecord {
            concept: name.to_string(),
            dependencies: dependencies.to_string(),
            category: category.map(|c| c.to_string()),
            week: None,
            earliest: None,
            latest: None,
        });
    }
    builder.build()
}

#[test]
fn palette_has_its_colours_in_order() {
    let expected = [
        "cadetblue1",
        "chocolate1",
        "darkgoldenrod1",
        "darkorchid1",
        "deeppink",
        "dodgerblue2",
        "firebrick1",
        "gray38",
        "green3",
        "navy",
        "orchid",
        "teal",
        "violetred",
        "yellow1",
        "tomato1",
    ];
    assert_eq!(expected.len(), PALETTE_SIZE);
    for (i, name) in expected.iter().enumerate() {
        assert_eq!(palette_color(i), *name);
    }
}

#[test]
fn categories_are_coloured_by_first_appearance() {
    let map = build(&[
        ("A", "", Some("x")),
        ("B", "", Some(" y ")),
        ("C", "", Some("x")),
        ("D", "", None),
        ("E", "", Some("")),
        ("F", "", Some("y")),
    ]);
    let payload = map.graph();
    assert_eq!(payload.legend, vec!["x", "y", ""]);
    assert_eq!(payload.colors, vec![0, 1, 0, 2, 2, 1]);
    assert!(payload.edges.is_empty());
}

#[test]
fn edges_go_from_each_concept_to_each_dependency() {
    let map = build(&[("A", "B;C", None), ("B", "C", None), ("C", "", None)]);
    assert_eq!(map.graph().edges, vec![(0, 1), (0, 2), (1, 2)]);
}

#[test]
fn edges_do_not_follow_the_order() {
    let map = build(&[("A", "C", None), ("B", "", None), ("C", "B", None)]);
    assert_eq!(map.dependency_order(), &vec![1, 2, 0]);
    assert_eq!(map.graph().edges, vec![(0, 2), (2, 1)]);
}

#[test]
fn stuck_concepts_keep_their_edges() {
    let map = build(&[("A", "B", None), ("B", "A", None), ("C", "D", None), ("D", "", None)]);
    assert_eq!(map.dependency_order(), &vec![3, 2]);
    assert_eq!(map.graph().edges, vec![(0, 1), (1, 0), (2, 3)]);
}

#[test]
fn self_dependency_is_an_edge() {
    let map = build(&[("A", "A", None)]);
    assert!(map.dependency_order().is_empty());
    assert_eq!(map.concept(0).dependencies().len(), 1);
    assert_eq!(map.graph().edges, vec![(0, 0)]);
}

#[test]
fn there_are_as_many_edges_as_dependencies() {
    let map = build(&[
        ("A", "B;C;A", None),
        ("B", "C;gone", None),
        ("C", "", None),
        ("D", "E", None),
        ("E", "D;A", None),
    ]);
    let dependencies: usize = (0..map.len()).map(|i| map.concept(i).dependencies().len()).sum();
    let edges = map.graph().edges;
    assert_eq!(dependencies, 7);
    assert_eq!(edges.len(), dependencies);
    for (from, to) in edges {
        assert!(map
            .concept(from)
            .dependencies()
            .contains(&map.concept(to).name().to_string()));
    }
}

#[test]
fn dropped_dependencies_give_no_edges() {
    let map = build(&[("A", "gone;B", None), ("B", "", None)]);
    assert_eq!(map.graph().edges, vec![(0, 1)]);
}

#[test]
fn as_many_categories_as_colours_can_be_drawn() {
    let names: Vec<String> = (0..PALETTE_SIZE).map(|i| format!("c{}", i)).collect();
    let mut builder = ConceptMapBuilder::new();
    for n in &names {
        builder.add(ConceptRecord {
            concept: n.clone(),
            dependencies: String::new(),
            category: Some(n.clone()),
            week: None,
            earliest: None,
            latest: None,
        });
    }
    let map = builder.build();
    assert!(map.fits_palette());
    let payload = map.graph();
    assert_eq!(payload.legend, names);
    assert_eq!(payload.colors, (0..PALETTE_SIZE).collect::<Vec<usize>>());
}

#[test]
fn one_category_too_many_cannot_be_drawn() {
    let mut builder = ConceptMapBuilder::new();
    for i in 0..PALETTE_SIZE + 1 {
        builder.add(ConceptRecord {
            concept: format!("c{}", i),
            dependencies: String::new(),
            category: Some(format!("k{}", i)),
            week: None,
            earliest: None,
            latest: None,
        });
    }
    let map = builder.build();
    assert!(!map.fits_palette());
    assert_eq!(map.legend().len(), PALETTE_SIZE + 1);
    assert_eq!(map.legend()[PALETTE_SIZE], "k15");
}

#[test]
fn legend_lists_categories_once() {
    let map = build(&[("A", "", Some("x")), ("B", "", None), ("C", "", Some(" x")), ("D", "", Some("y"))]);
    assert_eq!(map.legend(), vec!["x", "", "y"]);
    assert!(map.fits_palette());
}

#[test]
fn references_resolve_once_validated() {
    let mut builder = ConceptMapBuilder::new();
    for (name, dependencies) in [("A", "B;gone"), ("B", "")] {
        builder.add(ConceptRecord {
            concept: name.to_string(),
            dependencies: dependencies.to_string(),
            category: None,
            week: None,
            earliest: None,
            latest: None,
        });
    }
    let raw = builder.into_map();
    assert!(!raw.references_resolve());
    assert!(build(&[("A", "B;gone", None), ("B", "", None)]).references_resolve());
    assert!(build(&[("A", "A", None)]).references_resolve());
    assert!(ConceptMap::new().references_resolve());
}

#[test]
fn empty_map_draws_empty() {
    let payload = ConceptMap::new().graph();
    assert!(payload.colors.is_empty());
    assert!(payload.legend.is_empty());
    assert!(payload.edges.is_empty());
}
