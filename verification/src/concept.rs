//! A single concept of a curriculum, and the record it is read from.

use crate::text::{dependency_names, split_dependencies, texts, trim, trimmed};
use vstd::prelude::*;

verus! {

/// One row of the curriculum table, as it was read: nothing in it has been
/// trimmed or checked yet.
#[derive(Debug)]
pub struct ConceptRecord {
    pub concept: String,
    pub dependencies: String,
    pub category: Option<String>,
    pub week: Option<u64>,
    pub earliest: Option<u64>,
    pub latest: Option<u64>,
}

/// What a record says about the concept graph.
pub struct RecordView {
    pub concept: Seq<char>,
    pub dependencies: Seq<char>,
    pub category: Option<Seq<char>>,
}

impl View for ConceptRecord {
    type V = RecordView;

    open spec fn view(&self) -> RecordView {
        RecordView {
            concept: self.concept@,
            dependencies: self.dependencies@,
            category: match self.category {
                Some(c) => Some(c@),
                None => None,
            },
        }
    }
}

impl RecordView {
    /// The name under which the record's concept is known.
    pub open spec fn name(self) -> Seq<char> {
        trimmed(self.concept)
    }

    /// The record's category, trimmed; a record without one is in the
    /// category with the empty name.
    pub open spec fn category_name(self) -> Seq<char> {
        match self.category {
            Some(c) => trimmed(c),
            None => Seq::empty(),
        }
    }

    /// The names of the concepts that the record's concept depends on.
    pub open spec fn dependency_names(self) -> Seq<Seq<char>> {
        dependency_names(self.dependencies)
    }
}

/// A concept of the curriculum.
pub struct Concept {
    concept: String,
    category: String,
    line: usize,
    offset: usize,
    dependencies: Vec<String>,
}

/// A concept as the contracts speak of it.
pub struct ConceptView {
    /// The unique name.
    pub name: Seq<char>,
    /// The category; empty for none.
    pub category: Seq<char>,
    /// The number of the record that brought the concept, counted from 1.
    pub line: nat,
    /// Where the concept stands in its map, counted from 0.
    pub offset: nat,
    /// The names of the concepts it depends on, in the order given.
    pub dependencies: Seq<Seq<char>>,
}

impl View for Concept {
    type V = ConceptView;

    closed spec fn view(&self) -> ConceptView {
        ConceptView {
            name: self.concept@,
            category: self.category@,
            line: self.line as nat,
            offset: self.offset as nat,
            dependencies: texts(self.dependencies@),
        }
    }
}

impl ConceptView {
    /// The same concept with other dependencies.
    pub open spec fn with_dependencies(self, dependencies: Seq<Seq<char>>) -> ConceptView {
        ConceptView { dependencies, ..self }
    }

    /// The same concept at another place in its map.
    pub open spec fn with_offset(self, offset: nat) -> ConceptView {
        ConceptView { offset, ..self }
    }

    /// The concept that a record brings as record number `line`, before it
    /// has dependencies or a place in a map.
    pub open spec fn of_record(r: RecordView, line: nat) -> ConceptView {
        ConceptView {
            name: r.name(),
            category: r.category_name(),
            line,
            offset: 0,
            dependencies: Seq::empty(),
        }
    }
}

impl Concept {
    /// Makes the concept of record number `line`: name and category trimmed,
    /// no dependencies yet, at offset 0.
    pub fn new(r: &ConceptRecord, line: usize) -> (c: Concept)
        ensures
            c@ == ConceptView::of_record(r@, line as nat),
    {
        let category = match &r.category {
            Some(c) => trim(c.as_str()),
            None => String::new(),
        };
        let c = Concept {
            concept: trim(r.concept.as_str()),
            category,
            line,
            offset: 0,
            dependencies: Vec::new(),
        };
        assert(texts(c.dependencies@) =~= Seq::empty());
        c
    }

    /// Replaces the concept's dependencies.
    pub fn add_dependencies(&mut self, deps: Vec<String>)
        ensures
            final(self)@ == old(self)@.with_dependencies(texts(deps@)),
    {
        self.dependencies = deps;
    }

    /// Records where the concept stands in its map.
    pub fn add_offset(&mut self, offset: usize)
        ensures
            final(self)@ == old(self)@.with_offset(offset as nat),
    {
        self.offset = offset;
    }

    /// The concept's name.
    pub fn name(&self) -> (r: &str)
        ensures
            r@ == self@.name,
    {
        self.concept.as_str()
    }

    /// The concept's category.
    pub fn category(&self) -> (r: &str)
        ensures
            r@ == self@.category,
    {
        self.category.as_str()
    }

    /// The number of the record that brought the concept.
    pub fn line(&self) -> (r: usize)
        ensures
            r == self@.line,
    {
        self.line
    }

    /// The concept's place in its map.
    pub fn offset(&self) -> (r: usize)
        ensures
            r == self@.offset,
    {
        self.offset
    }

    /// The names of the concepts that this one depends on.
    pub fn dependencies(&self) -> (r: &Vec<String>)
        ensures
            texts(r@) == self@.dependencies,
    {
        &self.dependencies
    }

    /// Whether the concept goes by `name`.
    pub fn is_named(&self, name: &String) -> (b: bool)
        ensures
            b == (self@.name == name@),
    {
        self.concept == *name
    }

    /// A copy of the concept with `deps` in place of its dependencies.
    pub fn with_dependencies(&self, deps: Vec<String>) -> (c: Concept)
        ensures
            c@ == self@.with_dependencies(texts(deps@)),
    {
        Concept {
            concept: self.concept.clone(),
            category: self.category.clone(),
            line: self.line,
            offset: self.offset,
            dependencies: deps,
        }
    }

    /// Reads a record's dependency field into the concept.
    pub fn read_dependencies(&mut self, r: &ConceptRecord)
        ensures
            final(self)@ == old(self)@.with_dependencies(r@.dependency_names()),
    {
        self.add_dependencies(split_dependencies(r.dependencies.as_str()));
    }
}

} // verus!
