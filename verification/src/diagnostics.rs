//! The problems that building and validating a concept map can find. None of
//! them stops the work: each is recorded and the offending item left out.

use crate::text::{decimal, decimal_text, join, joined, texts};
use vstd::prelude::*;
use vstd::string::*;

verus! {

/// The most records that a concept map takes in. It keeps the record counter
/// and the size of every diagnostic within what the machine can hold.
pub const MAX_RECORDS: usize = 0x3fff_ffff;

/// One recorded problem.
#[derive(Debug, PartialEq, Eq)]
pub enum Diagnostic {
    /// Record `record` names a concept that record `first_record` had
    /// already brought; the later record was ignored.
    RedundantConcept { name: String, record: usize, first_record: usize },
    /// The concept `concept` of record `record` lists a dependency that no
    /// concept is named after; the dependency was dropped.
    DanglingDependency { dependency: String, concept: String, record: usize },
    /// These concepts lie on a dependency cycle, or depend on one that does.
    CircularDependencies { concepts: Vec<String> },
}

/// A diagnostic as the contracts speak of it.
pub enum DiagnosticView {
    RedundantConcept { name: Seq<char>, record: nat, first_record: nat },
    DanglingDependency { dependency: Seq<char>, concept: Seq<char>, record: nat },
    CircularDependencies { concepts: Seq<Seq<char>> },
}

impl View for Diagnostic {
    type V = DiagnosticView;

    open spec fn view(&self) -> DiagnosticView {
        match self {
            Diagnostic::RedundantConcept { name, record, first_record } => {
                DiagnosticView::RedundantConcept {
                    name: name@,
                    record: *record as nat,
                    first_record: *first_record as nat,
                }
            },
            Diagnostic::DanglingDependency { dependency, concept, record } => {
                DiagnosticView::DanglingDependency {
                    dependency: dependency@,
                    concept: concept@,
                    record: *record as nat,
                }
            },
            Diagnostic::CircularDependencies { concepts } => {
                DiagnosticView::CircularDependencies { concepts: texts(concepts@) }
            },
        }
    }
}

impl DiagnosticView {
    /// The line of the report that states this diagnostic, with its bullet
    /// and its line end.
    pub open spec fn text(self) -> Seq<char> {
        match self {
            DiagnosticView::RedundantConcept { name, record, first_record } => {
                "- Found redundant copy of concept \""@ + name + "\" in record "@ + decimal(record)
                    + " (redundant with record "@ + decimal(first_record)
                    + "). Ignoring concept entry.\n"@
            },
            DiagnosticView::DanglingDependency { dependency, concept, record } => {
                "- Dependency on \""@ + dependency + "\" in concept \""@ + concept
                    + "\" in record "@ + decimal(record)
                    + " does not correspond to a concept. Ignoring dependency.\n"@
            },
            DiagnosticView::CircularDependencies { concepts } => {
                "- Circular conceptual dependencies including (or depended on by) "@ + decimal(
                    concepts.len(),
                ) + " concepts: "@ + joined(concepts, ", "@) + ".\n"@
            },
        }
    }

    /// Whether the diagnostic names no more concepts than a map can hold.
    pub open spec fn bounded(self) -> bool {
        self matches DiagnosticView::CircularDependencies { concepts } ==> concepts.len()
            <= MAX_RECORDS
    }
}

/// The report of a sequence of diagnostics: their lines, in order.
pub open spec fn report_text(diagnostics: Seq<DiagnosticView>) -> Seq<char>
    decreases diagnostics.len(),
{
    if diagnostics.len() == 0 {
        Seq::empty()
    } else {
        report_text(diagnostics.drop_last()) + diagnostics.last().text()
    }
}

/// The views of a vector of diagnostics, in order.
pub open spec fn diagnostic_views(v: Seq<Diagnostic>) -> Seq<DiagnosticView> {
    Seq::new(v.len(), |i: int| v[i]@)
}

impl Diagnostic {
    /// Writes the diagnostic as a line of the report.
    pub fn to_text(&self) -> (r: String)
        requires
            self@.bounded(),
        ensures
            r@ == self@.text(),
    {
        match self {
            Diagnostic::RedundantConcept { name, record, first_record } => {
                let mut r = "- Found redundant copy of concept \"".to_owned();
                r.append(name.as_str());
                r.append("\" in record ");
                r.append(decimal_text(*record).as_str());
                r.append(" (redundant with record ");
                r.append(decimal_text(*first_record).as_str());
                r.append("). Ignoring concept entry.\n");
                r
            },
            Diagnostic::DanglingDependency { dependency, concept, record } => {
                let mut r = "- Dependency on \"".to_owned();
                r.append(dependency.as_str());
                r.append("\" in concept \"");
                r.append(concept.as_str());
                r.append("\" in record ");
                r.append(decimal_text(*record).as_str());
                r.append(" does not correspond to a concept. Ignoring dependency.\n");
                r
            },
            Diagnostic::CircularDependencies { concepts } => {
                let separator = ", ";
                proof {
                    reveal_strlit(", ");
                    is_ascii_spec_bytes(separator);
                    assert(separator.len() == 2);
                    assert(texts(concepts@).len() == concepts.len());
                }
                let mut r =
                    "- Circular conceptual dependencies including (or depended on by) ".to_owned();
                r.append(decimal_text(concepts.len()).as_str());
                r.append(" concepts: ");
                r.append(join(concepts, separator).as_str());
                r.append(".\n");
                r
            },
        }
    }
}

/// Writes the report of `diagnostics`, one line for each.
pub fn report(diagnostics: &Vec<Diagnostic>) -> (r: String)
    requires
        forall|i: int| 0 <= i < diagnostics.len() ==> (#[trigger] diagnostics[i])@.bounded(),
    ensures
        r@ == report_text(diagnostic_views(diagnostics@)),
{
    let mut r = String::new();
    let mut i: usize = 0;
    assert(diagnostic_views(diagnostics@).take(0) =~= Seq::empty());
    while i < diagnostics.len()
        invariant
            i <= diagnostics.len(),
            forall|i: int| 0 <= i < diagnostics.len() ==> (#[trigger] diagnostics[i])@.bounded(),
            r@ == report_text(diagnostic_views(diagnostics@).take(i as int)),
        decreases diagnostics.len() - i,
    {
        let ghost seen = diagnostic_views(diagnostics@).take(i + 1);
        assert(seen.drop_last() =~= diagnostic_views(diagnostics@).take(i as int));
        assert(seen.last() == diagnostics[i as int]@);
        r.append(diagnostics[i].to_text().as_str());
        i += 1;
    }
    assert(diagnostic_views(diagnostics@).take(diagnostics.len() as int) =~= diagnostic_views(
        diagnostics@,
    ));
    r
}

} // verus!
