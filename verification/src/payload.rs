//! What a renderer needs to draw a concept map: a colour for every concept
//! by its category, the legend of the categories, and the dependency edges.

use crate::map::{ConceptMap, MapView};
use crate::text::{find_text, texts};
use vstd::prelude::*;

verus! {

/// The number of colours in the palette, and so the most categories that a
/// map can be drawn with.
pub const PALETTE_SIZE: usize = 15;

/// The name of a colour of the palette.
pub open spec fn palette(index: int) -> Seq<char> {
    if index == 0 {
        "cadetblue1"@
    } else if index == 1 {
        "chocolate1"@
    } else if index == 2 {
        "darkgoldenrod1"@
    } else if index == 3 {
        "darkorchid1"@
    } else if index == 4 {
        "deeppink"@
    } else if index == 5 {
        "dodgerblue2"@
    } else if index == 6 {
        "firebrick1"@
    } else if index == 7 {
        "gray38"@
    } else if index == 8 {
        "green3"@
    } else if index == 9 {
        "navy"@
    } else if index == 10 {
        "orchid"@
    } else if index == 11 {
        "teal"@
    } else if index == 12 {
        "violetred"@
    } else if index == 13 {
        "yellow1"@
    } else {
        "tomato1"@
    }
}

/// The name of the colour at `index` of the palette.
pub fn palette_color(index: usize) -> (r: &'static str)
    requires
        index < PALETTE_SIZE,
    ensures
        r@ == palette(index as int),
{
    if index == 0 {
        "cadetblue1"
    } else if index == 1 {
        "chocolate1"
    } else if index == 2 {
        "darkgoldenrod1"
    } else if index == 3 {
        "darkorchid1"
    } else if index == 4 {
        "deeppink"
    } else if index == 5 {
        "dodgerblue2"
    } else if index == 6 {
        "firebrick1"
    } else if index == 7 {
        "gray38"
    } else if index == 8 {
        "green3"
    } else if index == 9 {
        "navy"
    } else if index == 10 {
        "orchid"
    } else if index == 11 {
        "teal"
    } else if index == 12 {
        "violetred"
    } else if index == 13 {
        "yellow1"
    } else {
        "tomato1"
    }
}

/// The categories of the concepts, by offset.
pub open spec fn categories(v: MapView) -> Seq<Seq<char>> {
    Seq::new(v.concepts.len(), |i: int| v.concepts[i].category)
}

/// The distinct entries of `list`, in the order of their first appearance.
pub open spec fn first_seen(list: Seq<Seq<char>>) -> Seq<Seq<char>>
    decreases list.len(),
{
    if list.len() == 0 {
        Seq::empty()
    } else {
        let before = first_seen(list.drop_last());
        if before.contains(list.last()) {
            before
        } else {
            before.push(list.last())
        }
    }
}

/// The edges that the first `count` dependencies of the concept at offset
/// `p` give: from the concept to each dependency.
pub open spec fn edges_from(v: MapView, p: int, count: int) -> Seq<(int, int)>
    decreases count,
{
    if count <= 0 {
        Seq::empty()
    } else {
        edges_from(v, p, count - 1).push((p, v.position(v.concepts[p].dependencies[count - 1])))
    }
}

/// The edges of the first `k` concepts, concept by concept.
pub open spec fn edges_upto(v: MapView, k: int) -> Seq<(int, int)>
    decreases k,
{
    if k <= 0 {
        Seq::empty()
    } else {
        edges_upto(v, k - 1) + edges_from(v, k - 1, v.concepts[k - 1].dependencies.len() as int)
    }
}

/// The edges of the map: for every concept, by offset, one to each of its
/// dependencies, whether validation could order the concept or not.
pub open spec fn edges(v: MapView) -> Seq<(int, int)> {
    edges_upto(v, v.concepts.len() as int)
}

/// The pairs of offsets that a vector of edges holds, as integers.
pub open spec fn edge_views(e: Seq<(usize, usize)>) -> Seq<(int, int)> {
    Seq::new(e.len(), |i: int| (e[i].0 as int, e[i].1 as int))
}

/// Whether the palette has a colour for every category of the map.
pub open spec fn fits_palette(v: MapView) -> bool {
    first_seen(categories(v)).len() <= PALETTE_SIZE
}

/// What a renderer draws a map from.
#[derive(Debug, PartialEq, Eq)]
pub struct GraphPayload {
    /// For every concept, by offset, the palette index of its colour.
    pub colors: Vec<usize>,
    /// The categories in the order of their first appearance; the category
    /// at an index has the palette colour at that index.
    pub legend: Vec<String>,
    /// The edges, each from a concept to one of its dependencies.
    pub edges: Vec<(usize, usize)>,
}

impl GraphPayload {
    /// Whether the payload is the one of the map `v`.
    pub open spec fn is_of(&self, v: MapView) -> bool {
        &&& texts(self.legend@) == first_seen(categories(v))
        &&& self.legend.len() <= PALETTE_SIZE
        &&& self.colors.len() == v.concepts.len()
        &&& forall|i: int|
            0 <= i < self.colors.len() ==> (#[trigger] self.colors[i]) < self.legend.len()
                && self.legend[self.colors[i] as int]@ == v.concepts[i].category
        &&& edge_views(self.edges@) == edges(v)
    }
}

impl ConceptMap {
    /// Numbers the categories in the order in which they first appear among
    /// the concepts. Returns, for every concept, the number of its category,
    /// and the categories by number.
    fn colors(&self) -> (r: (Vec<usize>, Vec<String>))
        ensures
            texts(r.1@) == first_seen(categories(self@)),
            r.0.len() == self@.concepts.len(),
            forall|i: int|
                0 <= i < r.0.len() ==> (#[trigger] r.0[i]) < r.1.len() && r.1[r.0[i] as int]@
                    == self@.concepts[i].category,
    {
        let n = self.len();
        let mut colors: Vec<usize> = Vec::new();
        let mut legend: Vec<String> = Vec::new();
        let mut i: usize = 0;
        assert(categories(self@).take(0) =~= Seq::empty());
        assert(texts(legend@) =~= Seq::empty());
        while i < n
            invariant
                i <= n,
                n == self@.concepts.len(),
                texts(legend@) == first_seen(categories(self@).take(i as int)),
                colors.len() == i,
                forall|j: int|
                    0 <= j < i ==> (#[trigger] colors[j]) < legend.len()
                        && legend[colors[j] as int]@ == self@.concepts[j].category,
            decreases n - i,
        {
            let ghost seen = categories(self@).take(i + 1);
            let ghost before = texts(legend@);
            assert(seen.drop_last() =~= categories(self@).take(i as int));
            assert(seen.last() == self@.concepts[i as int].category);
            let category = self.concept(i).category().to_owned();
            match find_text(&legend, &category) {
                Some(c) => {
                    assert(before[c as int] == category@);
                    colors.push(c);
                },
                None => {
                    colors.push(legend.len());
                    legend.push(category);
                    assert(texts(legend@) =~= before.push(category@));
                },
            }
            i += 1;
        }
        assert(categories(self@).take(n as int) =~= categories(self@));
        (colors, legend)
    }

    /// The categories of the concepts, each once, in the order in which they
    /// first appear.
    pub fn legend(&self) -> (r: Vec<String>)
        ensures
            texts(r@) == first_seen(categories(self@)),
    {
        self.colors().1
    }

    /// Whether the palette has a colour for every category, so that the map
    /// can be drawn.
    pub fn fits_palette(&self) -> (b: bool)
        ensures
            b == fits_palette(self@),
    {
        self.legend().len() <= PALETTE_SIZE
    }

    /// Whether every dependency of every concept names a concept of the map,
    /// as it does once the map is validated.
    pub fn references_resolve(&self) -> (b: bool)
        ensures
            b == self@.closed(),
    {
        let n = self.len();
        let mut i: usize = 0;
        while i < n
            invariant
                i <= n,
                n == self@.concepts.len(),
                forall|j: int, m: int|
                    0 <= j < i && 0 <= m < self@.concepts[j].dependencies.len() ==> self@.has(
                        #[trigger] self@.concepts[j].dependencies[m],
                    ),
            decreases n - i,
        {
            let deps = self.concept(i).dependencies();
            let mut m: usize = 0;
            while m < deps.len()
                invariant
                    m <= deps.len(),
                    i < n,
                    n == self@.concepts.len(),
                    texts(deps@) == self@.concepts[i as int].dependencies,
                    forall|k: int|
                        0 <= k < m ==> self@.has(
                            #[trigger] self@.concepts[i as int].dependencies[k],
                        ),
                decreases deps.len() - m,
            {
                assert(texts(deps@)[m as int] == deps[m as int]@);
                match self.position_of(deps[m].as_str()) {
                    Some(q) => {
                        assert(self@.concepts[q as int].name == deps[m as int]@);
                    },
                    None => {
                        assert(!self@.has(self@.concepts[i as int].dependencies[m as int]));
                        return false;
                    },
                }
                m += 1;
            }
            i += 1;
        }
        true
    }

    /// The edges from the concept at offset `p` to its dependencies, added
    /// to `edges`.
    fn edges_of(&self, p: usize, edges: &mut Vec<(usize, usize)>)
        requires
            self@.distinct(),
            self@.closed(),
            p < self@.concepts.len(),
        ensures
            edge_views(final(edges)@) == edge_views(old(edges)@) + edges_from(
                self@,
                p as int,
                self@.concepts[p as int].dependencies.len() as int,
            ),
    {
        let ghost v = self@;
        let deps = self.concept(p).dependencies();
        let mut m: usize = 0;
        assert(edge_views(edges@) =~= edge_views(old(edges)@) + Seq::empty());
        while m < deps.len()
            invariant
                m <= deps.len(),
                v == self@,
                v.distinct(),
                v.closed(),
                p < v.concepts.len(),
                texts(deps@) == v.concepts[p as int].dependencies,
                edge_views(edges@) == edge_views(old(edges)@) + edges_from(v, p as int, m as int),
            decreases deps.len() - m,
        {
            let ghost before = edge_views(edges@);
            let ghost name = v.concepts[p as int].dependencies[m as int];
            assert(texts(deps@)[m as int] == deps[m as int]@);
            assert(v.has(name));
            let found = self.position_of(deps[m].as_str());
            let q = found.unwrap();
            proof {
                v.lemma_position(name, q as int);
            }
            edges.push((p, q));
            assert(edge_views(edges@) =~= before.push((p as int, q as int)));
            m += 1;
        }
    }

    /// The payload for drawing the map: for every concept the colour of its
    /// category, the legend, and an edge from every concept to each of its
    /// dependencies, whether the concept could be ordered or not. The map
    /// has to be validated, so that every dependency names a concept, and in
    /// no more categories than the palette has colours: a map in more cannot
    /// be drawn, and `fits_palette` tells.
    pub fn graph(&self) -> (payload: GraphPayload)
        requires
            self@.wf(),
            self@.closed(),
            fits_palette(self@),
        ensures
            payload.is_of(self@),
    {
        let (colors, legend) = self.colors();
        let n = self.len();
        let mut edges: Vec<(usize, usize)> = Vec::new();
        let mut k: usize = 0;
        assert(edge_views(edges@) =~= Seq::empty());
        while k < n
            invariant
                k <= n,
                n == self@.concepts.len(),
                self@.wf(),
                self@.closed(),
                edge_views(edges@) == edges_upto(self@, k as int),
            decreases n - k,
        {
            self.edges_of(k, &mut edges);
            k += 1;
        }
        GraphPayload { colors, legend, edges }
    }
}

} // verus!
