//! The dependency graph of a codebase and the integer side of its spectral
//! analysis.
//!
//! Entities (files, functions, modules) are nodes and dependencies are
//! directed, weighted edges. Weights are kept in tenths (an import weighs
//! `1.0`, a module dependency `0.6`, a reference `0.2`), so that every sum
//! the analysis needs is exact. What this module computes from the graph:
//! the undirected pair weights handed to the spectral solver, the weighted
//! degrees, the degree-based approximation of the Fiedler vector and its
//! sign partition, sub-graphs, and community detection by repeated spectral
//! bisection.
use vstd::prelude::*;
use vstd::multiset::Multiset;

verus! {

// ---------------------------------------------------------------------------
// Data model
// ---------------------------------------------------------------------------

/// The weight (strength) of a dependency edge between two code entities.
#[derive(Debug, Clone, Copy, PartialEq, Eq, Structural)]
pub enum DependencyWeight {
    /// File-level import / `use` statement (strong).
    Import,
    /// Module-level dependency (medium).
    Module,
    /// Weak or inferred reference (light).
    Reference,
}

/// The weight of a dependency in tenths: 10 for an import, 6 for a module
/// dependency, 2 for a reference.
pub open spec fn tenths(w: DependencyWeight) -> int {
    match w {
        DependencyWeight::Import => 10,
        DependencyWeight::Module => 6,
        DependencyWeight::Reference => 2,
    }
}

impl DependencyWeight {
    /// The weight in tenths (`1.0`, `0.6` and `0.2` times ten).
    pub fn as_tenths(self) -> (w: u64)
        ensures
            w == tenths(self),
    {
        match self {
            DependencyWeight::Import => 10,
            DependencyWeight::Module => 6,
            DependencyWeight::Reference => 2,
        }
    }
}

/// What an [`Entity`] denotes: its kind and its path or name.
pub enum EntityView {
    File(Seq<char>),
    Function(Seq<char>),
    Module(Seq<char>),
}

/// One node in the dependency graph – a file, function, or module.
#[derive(Debug)]
pub enum Entity {
    File(String),
    Function(String),
    Module(String),
}

impl View for Entity {
    type V = EntityView;

    open spec fn view(&self) -> EntityView {
        match self {
            Entity::File(p) => EntityView::File(p@),
            Entity::Function(n) => EntityView::Function(n@),
            Entity::Module(p) => EntityView::Module(p@),
        }
    }
}

impl Clone for Entity {
    fn clone(&self) -> (r: Self)
        ensures
            r@ == self@,
    {
        match self {
            Entity::File(p) => Entity::File(p.clone()),
            Entity::Function(n) => Entity::Function(n.clone()),
            Entity::Module(p) => Entity::Module(p.clone()),
        }
    }
}

impl PartialEq for Entity {
    fn eq(&self, other: &Self) -> (r: bool) {
        match self {
            Entity::File(a) => match other {
                Entity::File(b) => *a == *b,
                _ => false,
            },
            Entity::Function(a) => match other {
                Entity::Function(b) => *a == *b,
                _ => false,
            },
            Entity::Module(a) => match other {
                Entity::Module(b) => *a == *b,
                _ => false,
            },
        }
    }
}

impl vstd::std_specs::cmp::PartialEqSpecImpl for Entity {
    open spec fn obeys_eq_spec() -> bool {
        true
    }

    open spec fn eq_spec(&self, other: &Entity) -> bool {
        self@ == other@
    }
}

impl Eq for Entity {
}

/// The display label of an entity: `file:<path>`, `fn:<name>` or `mod:<path>`.
pub open spec fn label(e: EntityView) -> Seq<char> {
    match e {
        EntityView::File(p) => seq!['f', 'i', 'l', 'e', ':'] + p,
        EntityView::Function(n) => seq!['f', 'n', ':'] + n,
        EntityView::Module(p) => seq!['m', 'o', 'd', ':'] + p,
    }
}

/// The first two characters of a label tell its kind.
proof fn lemma_label_head(x: EntityView)
    ensures
        label(x).len() >= 2,
        x is File ==> label(x)[0] == 'f' && label(x)[1] == 'i',
        x is Function ==> label(x)[0] == 'f' && label(x)[1] == 'n',
        x is Module ==> label(x)[0] == 'm' && label(x)[1] == 'o',
{
}

/// Distinct entities have distinct labels.
pub proof fn lemma_label_injective(x: EntityView, y: EntityView)
    requires
        label(x) == label(y),
    ensures
        x == y,
{
    match (x, y) {
        (EntityView::File(p), EntityView::File(q)) => {
            assert(p =~= label(x).subrange(5, label(x).len() as int));
            assert(q =~= label(y).subrange(5, label(y).len() as int));
        },
        (EntityView::Function(p), EntityView::Function(q)) => {
            assert(p =~= label(x).subrange(3, label(x).len() as int));
            assert(q =~= label(y).subrange(3, label(y).len() as int));
        },
        (EntityView::Module(p), EntityView::Module(q)) => {
            assert(p =~= label(x).subrange(4, label(x).len() as int));
            assert(q =~= label(y).subrange(4, label(y).len() as int));
        },
        _ => {
            lemma_label_head(x);
            lemma_label_head(y);
        },
    }
}

impl Entity {
    /// The label under which the entity is reported: `file:<path>`,
    /// `fn:<name>` or `mod:<path>`.
    pub fn label(&self) -> (s: String)
        ensures
            s@ == label(self@),
    {
        match self {
            Entity::File(p) => {
                let mut s = String::from_str("file:");
                proof {
                    reveal_strlit("file:");
                }
                s.append(p.as_str());
                s
            },
            Entity::Function(n) => {
                let mut s = String::from_str("fn:");
                proof {
                    reveal_strlit("fn:");
                }
                s.append(n.as_str());
                s
            },
            Entity::Module(p) => {
                let mut s = String::from_str("mod:");
                proof {
                    reveal_strlit("mod:");
                }
                s.append(p.as_str());
                s
            },
        }
    }
}

/// A directed dependency edge between two code entities.
#[derive(Debug)]
pub struct DependencyEdge {
    pub from: Entity,
    pub to: Entity,
    pub weight: DependencyWeight,
}

/// What a [`DependencyEdge`] denotes.
pub struct EdgeView {
    pub from: EntityView,
    pub to: EntityView,
    pub weight: DependencyWeight,
}

impl View for DependencyEdge {
    type V = EdgeView;

    open spec fn view(&self) -> EdgeView {
        EdgeView { from: self.from@, to: self.to@, weight: self.weight }
    }
}

impl Clone for DependencyEdge {
    fn clone(&self) -> (r: Self)
        ensures
            r@ == self@,
    {
        DependencyEdge { from: self.from.clone(), to: self.to.clone(), weight: self.weight }
    }
}

/// The entity sequence after adding `e`: unchanged if `e` is already there,
/// otherwise `e` appended.
pub open spec fn with_entity(s: Seq<EntityView>, e: EntityView) -> Seq<EntityView> {
    if s.contains(e) {
        s
    } else {
        s.push(e)
    }
}

/// Adding an entity keeps every entity already there and holds the new one.
pub proof fn lemma_with_entity(s: Seq<EntityView>, e: EntityView, x: EntityView)
    ensures
        with_entity(s, e).contains(e),
        s.contains(x) ==> with_entity(s, e).contains(x),
        s.no_duplicates() ==> with_entity(s, e).no_duplicates(),
{
    if !s.contains(e) {
        assert(s.push(e)[s.len() as int] == e);
        if s.contains(x) {
            let i = choose|i: int| 0 <= i < s.len() && s[i] == x;
            assert(s.push(e)[i] == x);
        }
    }
}

/// The entity sequence after adding an edge: its source, then its target.
pub open spec fn with_edge(s: Seq<EntityView>, e: EdgeView) -> Seq<EntityView> {
    with_entity(with_entity(s, e.from), e.to)
}

/// The full codebase dependency graph.
#[derive(Debug)]
pub struct CodeGraph {
    pub entities: Vec<Entity>,
    pub edges: Vec<DependencyEdge>,
}

impl CodeGraph {
    /// The entities, as views.
    pub open spec fn ents(&self) -> Seq<EntityView> {
        self.entities@.map_values(|e: Entity| e@)
    }

    /// The edges, as views.
    pub open spec fn edge_views(&self) -> Seq<EdgeView> {
        self.edges@.map_values(|e: DependencyEdge| e@)
    }

    /// A well-formed graph lists each entity once and every edge joins two
    /// listed entities.
    pub open spec fn wf(&self) -> bool {
        &&& self.ents().no_duplicates()
        &&& forall|k: int|
            0 <= k < self.edge_views().len() ==> #[trigger] self.ents().contains(
                self.edge_views()[k].from,
            ) && self.ents().contains(self.edge_views()[k].to)
    }

    pub fn new() -> (g: Self)
        ensures
            g.wf(),
            g.ents() == Seq::<EntityView>::empty(),
            g.edge_views() == Seq::<EdgeView>::empty(),
    {
        let g = CodeGraph { entities: Vec::new(), edges: Vec::new() };
        assert(g.ents() =~= Seq::<EntityView>::empty());
        assert(g.edge_views() =~= Seq::<EdgeView>::empty());
        g
    }

    /// The position of `e` among the entities, if it is there.
    pub fn position_of(&self, e: &Entity) -> (r: Option<usize>)
        ensures
            match r {
                Some(i) => i < self.ents().len() && self.ents()[i as int] == e@ && forall|j: int|
                    0 <= j < i ==> self.ents()[j] != e@,
                None => !self.ents().contains(e@),
            },
    {
        let mut i: usize = 0;
        while i < self.entities.len()
            invariant
                i <= self.entities@.len(),
                forall|j: int| 0 <= j < i ==> self.ents()[j] != e@,
            decreases self.entities@.len() - i,
        {
            if self.entities[i] == *e {
                return Some(i);
            }
            i = i + 1;
        }
        None
    }

    /// Add a node to the graph.
    pub fn add_entity(&mut self, entity: Entity)
        requires
            old(self).wf(),
        ensures
            final(self).wf(),
            final(self).ents() == with_entity(old(self).ents(), entity@),
            final(self).edge_views() == old(self).edge_views(),
    {
        let ghost e = entity@;
        match self.position_of(&entity) {
            Some(_) => {},
            None => {
                self.entities.push(entity);
                assert(self.ents() =~= old(self).ents().push(e));
                assert(self.edge_views() =~= old(self).edge_views());
                assert forall|k: int| 0 <= k < self.edge_views().len() implies #[trigger] self.ents().contains(
                    self.edge_views()[k].from,
                ) && self.ents().contains(self.edge_views()[k].to) by {
                    lemma_with_entity(old(self).ents(), e, self.edge_views()[k].from);
                    lemma_with_entity(old(self).ents(), e, self.edge_views()[k].to);
                }
                proof {
                    lemma_with_entity(old(self).ents(), e, e);
                }
            },
        }
    }

    /// Add a directed dependency edge.
    pub fn add_edge(&mut self, edge: DependencyEdge)
        requires
            old(self).wf(),
        ensures
            final(self).wf(),
            final(self).ents() == with_edge(old(self).ents(), edge@),
            final(self).edge_views() == old(self).edge_views().push(edge@),
    {
        let ghost ev = edge@;
        self.add_entity(edge.from.clone());
        self.add_entity(edge.to.clone());
        let ghost mid = self.ents();
        self.edges.push(edge);
        assert(self.ents() == mid);
        assert(self.edge_views() =~= old(self).edge_views().push(ev));
        let ghost s1 = with_entity(old(self).ents(), ev.from);
        assert forall|k: int| 0 <= k < self.edge_views().len() implies #[trigger] self.ents().contains(
            self.edge_views()[k].from,
        ) && self.ents().contains(self.edge_views()[k].to) by {
            let f = self.edge_views()[k].from;
            let t = self.edge_views()[k].to;
            lemma_with_entity(old(self).ents(), ev.from, f);
            lemma_with_entity(s1, ev.to, f);
            lemma_with_entity(old(self).ents(), ev.from, t);
            lemma_with_entity(s1, ev.to, t);
            if k < self.edge_views().len() - 1 {
                assert(self.edge_views()[k] == old(self).edge_views()[k]);
            }
        }
    }

    /// Number of entities.
    pub fn len(&self) -> (n: usize)
        ensures
            n == self.ents().len(),
    {
        self.entities.len()
    }

    /// Whether the graph is empty.
    pub fn is_empty(&self) -> (b: bool)
        ensures
            b == (self.ents().len() == 0),
    {
        self.entities.len() == 0
    }

    /// Whether the graph is well formed: each entity listed once, and every
    /// edge joining two listed entities.
    pub fn is_well_formed(&self) -> (b: bool)
        ensures
            b == self.wf(),
    {
        let mut i: usize = 0;
        while i < self.entities.len()
            invariant
                i <= self.entities@.len(),
                forall|p: int, q: int| 0 <= p < q < i ==> #[trigger] self.ents()[p] != #[trigger] self.ents()[q],
            decreases self.entities@.len() - i,
        {
            proof {
                assert(self.ents()[i as int] == self.entities@[i as int]@);
            }
            match self.position_of(&self.entities[i]) {
                Some(j) => {
                    if j != i {
                        proof {
                            assert(self.ents()[j as int] == self.ents()[i as int]);
                        }
                        return false;
                    }
                },
                None => {
                    proof {
                        assert(self.ents().contains(self.ents()[i as int]));
                    }
                    return false;
                },
            }
            i = i + 1;
        }
        proof {
            assert(self.ents().no_duplicates()) by {
                assert forall|p: int, q: int| 0 <= p < self.ents().len() && 0 <= q < self.ents().len() && p != q implies self.ents()[p]
                    != self.ents()[q] by {
                    if q < p {
                        assert(self.ents()[q] != self.ents()[p]);
                    }
                }
            }
        }
        let mut k: usize = 0;
        while k < self.edges.len()
            invariant
                k <= self.edges@.len(),
                self.ents().no_duplicates(),
                forall|kk: int|
                    0 <= kk < k ==> #[trigger] self.ents().contains(self.edge_views()[kk].from) && self.ents().contains(
                        self.edge_views()[kk].to,
                    ),
            decreases self.edges@.len() - k,
        {
            proof {
                assert(self.edge_views()[k as int] == self.edges@[k as int]@);
            }
            let ghost ev = self.edge_views()[k as int];
            let from_in = self.position_of(&self.edges[k].from).is_some();
            let to_in = self.position_of(&self.edges[k].to).is_some();
            proof {
                assert(ev.from == self.edges@[k as int].from@);
                assert(ev.to == self.edges@[k as int].to@);
                assert(from_in == self.ents().contains(ev.from));
                assert(to_in == self.ents().contains(ev.to));
            }
            if !from_in || !to_in {
                proof {
                    assert(!(self.ents().contains(self.edge_views()[k as int].from) && self.ents().contains(
                        self.edge_views()[k as int].to,
                    )));
                }
                return false;
            }
            proof {
                assert forall|kk: int| 0 <= kk < k + 1 implies #[trigger] self.ents().contains(self.edge_views()[kk].from)
                    && self.ents().contains(self.edge_views()[kk].to) by {
                    if kk == k {
                        assert(self.edge_views()[kk] == ev);
                    }
                }
            }
            k = k + 1;
        }
        true
    }
}

// ---------------------------------------------------------------------------
// Indices, pair weights and degrees
// ---------------------------------------------------------------------------

/// The position of `x` in a sequence that holds it.
pub open spec fn index_in<A>(s: Seq<A>, x: A) -> int {
    choose|i: int| 0 <= i < s.len() && s[i] == x
}

pub proof fn lemma_index_in<A>(s: Seq<A>, i: int)
    requires
        s.no_duplicates(),
        0 <= i < s.len(),
    ensures
        index_in(s, s[i]) == i,
{
    let j = index_in(s, s[i]);
    assert(0 <= j < s.len() && s[j] == s[i]);
}

/// Whether `part` is a set of distinct entity indices of a graph with `n` entities.
pub open spec fn valid_part(part: Seq<usize>, n: int) -> bool {
    &&& part.no_duplicates()
    &&& forall|l: int| 0 <= l < part.len() ==> #[trigger] part[l] < n
}

/// The undirected pair of positions in `part` that an edge joins, if both of
/// its endpoints lie in `part` and are distinct.
pub open spec fn local_pair(ents: Seq<EntityView>, e: EdgeView, part: Seq<usize>) -> Option<(int, int)> {
    let gi = index_in(ents, e.from);
    let gj = index_in(ents, e.to);
    if gi != gj && part.contains(gi as usize) && part.contains(gj as usize) {
        let li = index_in(part, gi as usize);
        let lj = index_in(part, gj as usize);
        if li < lj {
            Some((li, lj))
        } else {
            Some((lj, li))
        }
    } else {
        None
    }
}

/// The summed weight, in tenths, of the edges in `es` that join the
/// positions `i` and `j` of `part`, in either direction.
pub open spec fn pair_weight(ents: Seq<EntityView>, es: Seq<EdgeView>, part: Seq<usize>, i: int, j: int) -> int
    decreases es.len(),
{
    if es.len() == 0 {
        0
    } else {
        pair_weight(ents, es.drop_last(), part, i, j) + if local_pair(ents, es.last(), part) == Some(
            (i, j),
        ) {
            tenths(es.last().weight)
        } else {
            0
        }
    }
}

proof fn lemma_pair_weight_bounds(ents: Seq<EntityView>, es: Seq<EdgeView>, part: Seq<usize>, i: int, j: int)
    ensures
        0 <= pair_weight(ents, es, part, i, j) <= 10 * es.len(),
    decreases es.len(),
{
    if es.len() > 0 {
        lemma_pair_weight_bounds(ents, es.drop_last(), part, i, j);
    }
}

/// The weighted degree, in tenths, of entity `x`: every edge adds its weight
/// to its source and, unless it is a self-loop, to its target.
pub open spec fn degree(ents: Seq<EntityView>, es: Seq<EdgeView>, x: int) -> int
    decreases es.len(),
{
    if es.len() == 0 {
        0
    } else {
        let e = es.last();
        let gi = index_in(ents, e.from);
        let gj = index_in(ents, e.to);
        degree(ents, es.drop_last(), x) + (if gi == x {
            tenths(e.weight)
        } else {
            0
        }) + (if gj == x && gj != gi {
            tenths(e.weight)
        } else {
            0
        })
    }
}

proof fn lemma_degree_bounds(ents: Seq<EntityView>, es: Seq<EdgeView>, x: int)
    ensures
        0 <= degree(ents, es, x) <= 20 * es.len(),
    decreases es.len(),
{
    if es.len() > 0 {
        lemma_degree_bounds(ents, es.drop_last(), x);
    }
}

/// The sum of the degrees of the entities `0..n`.
pub open spec fn total_degree(ents: Seq<EntityView>, es: Seq<EdgeView>, n: int) -> int
    decreases n,
{
    if n <= 0 {
        0
    } else {
        total_degree(ents, es, n - 1) + degree(ents, es, n - 1)
    }
}

proof fn lemma_total_degree_bounds(ents: Seq<EntityView>, es: Seq<EdgeView>, n: int)
    requires
        n >= 0,
    ensures
        0 <= total_degree(ents, es, n) <= 20 * es.len() * n,
    decreases n,
{
    if n > 0 {
        lemma_total_degree_bounds(ents, es, n - 1);
        lemma_degree_bounds(ents, es, n - 1);
        assert(20 * es.len() * (n - 1) + 20 * es.len() == 20 * es.len() * n) by (nonlinear_arith);
    }
}

/// An undirected, weighted pair of positions, as handed to the spectral solver.
#[derive(Debug, Clone, Copy)]
pub struct PairWeight {
    /// The smaller position.
    pub i: usize,
    /// The larger position.
    pub j: usize,
    /// The summed weight of the edges between them, in tenths.
    pub tenths: u64,
}

/// A bound on the sizes this module computes with, far beyond what memory holds.
pub open spec fn size_limit() -> int {
    0x100_0000_0000
}

impl CodeGraph {
    /// Whether the graph is small enough for the weight arithmetic: fewer
    /// than 2^40 entities and 2^40 edges.
    pub open spec fn size_ok(&self) -> bool {
        self.entities@.len() <= size_limit() && self.edges@.len() <= size_limit()
    }

    /// The index of an entity that the graph is known to hold.
    fn index_of(&self, e: &Entity) -> (i: usize)
        requires
            self.wf(),
            self.ents().contains(e@),
        ensures
            i < self.ents().len(),
            i == index_in(self.ents(), e@),
    {
        match self.position_of(e) {
            Some(i) => {
                proof {
                    lemma_index_in(self.ents(), i as int);
                }
                i
            },
            None => {
                proof {
                    assert(false);
                }
                0
            },
        }
    }

    /// The undirected weighted pairs among the entities of `part` (given by
    /// index): for every two positions of `part` that some edge joins (in
    /// either direction, self-loops left out), the positions and the summed
    /// weight of those edges. Each pair is listed once, smaller position first.
    pub fn weighted_pairs(&self, part: &Vec<usize>) -> (r: Vec<PairWeight>)
        requires
            self.wf(),
            self.size_ok(),
            valid_part(part@, self.ents().len() as int),
        ensures
            forall|t: int|
                0 <= t < r@.len() ==> {
                    &&& (#[trigger] r@[t]).i < r@[t].j < part@.len()
                    &&& r@[t].tenths == pair_weight(
                        self.ents(),
                        self.edge_views(),
                        part@,
                        r@[t].i as int,
                        r@[t].j as int,
                    )
                    &&& r@[t].tenths > 0
                },
            forall|t1: int, t2: int|
                0 <= t1 < r@.len() && 0 <= t2 < r@.len() && t1 != t2 ==> (#[trigger] r@[t1].i, r@[t1].j)
                    != (#[trigger] r@[t2].i, r@[t2].j),
            forall|i: int, j: int|
                0 <= i < j < part@.len() && pair_weight(self.ents(), self.edge_views(), part@, i, j) > 0
                    ==> exists|t: int| 0 <= t < r@.len() && #[trigger] r@[t].i == i && r@[t].j == j,
    {
        let ghost ents = self.ents();
        let ghost evs = self.edge_views();
        let mut r: Vec<PairWeight> = Vec::new();
        let mut k: usize = 0;
        while k < self.edges.len()
            invariant
                self.wf(),
                self.size_ok(),
                ents == self.ents(),
                evs == self.edge_views(),
                valid_part(part@, ents.len() as int),
                k <= evs.len(),
                forall|t: int|
                    0 <= t < r@.len() ==> {
                        &&& (#[trigger] r@[t]).i < r@[t].j < part@.len()
                        &&& r@[t].tenths == pair_weight(
                            ents,
                            evs.take(k as int),
                            part@,
                            r@[t].i as int,
                            r@[t].j as int,
                        )
                        &&& r@[t].tenths > 0
                    },
                forall|t1: int, t2: int|
                    0 <= t1 < r@.len() && 0 <= t2 < r@.len() && t1 != t2 ==> (#[trigger] r@[t1].i, r@[t1].j)
                        != (#[trigger] r@[t2].i, r@[t2].j),
                forall|i: int, j: int|
                    0 <= i < j < part@.len() && pair_weight(ents, evs.take(k as int), part@, i, j) > 0
                        ==> exists|t: int| 0 <= t < r@.len() && #[trigger] r@[t].i == i && r@[t].j == j,
            decreases evs.len() - k,
        {
            let edge = &self.edges[k];
            proof {
                assert(evs[k as int] == edge@);
                assert(self.ents().contains(evs[k as int].from));
            }
            let gi = self.index_of(&edge.from);
            let gj = self.index_of(&edge.to);
            let ghost pre = evs.take(k as int);
            let ghost post = evs.take(k + 1);
            proof {
                assert(post.drop_last() =~= pre);
                assert(post.last() == edge@);
            }
            let li = find_index(part, gi);
            let lj = find_index(part, gj);
            if gi != gj && li.is_some() && lj.is_some() {
                let li = li.unwrap();
                let lj = lj.unwrap();
                proof {
                    lemma_index_in(part@, li as int);
                    lemma_index_in(part@, lj as int);
                }
                let (a, b) = if li < lj {
                    (li, lj)
                } else {
                    (lj, li)
                };
                let w = edge.weight.as_tenths();
                proof {
                    assert(local_pair(ents, edge@, part@) == Some((a as int, b as int)));
                    lemma_pair_weight_bounds(ents, pre, part@, a as int, b as int);
                    assert forall|i: int, j: int| (i, j) != (a as int, b as int) implies pair_weight(
                        ents,
                        post,
                        part@,
                        i,
                        j,
                    ) == pair_weight(ents, pre, part@, i, j) by {}
                    assert(pair_weight(ents, post, part@, a as int, b as int) == pair_weight(
                        ents,
                        pre,
                        part@,
                        a as int,
                        b as int,
                    ) + w);
                }
                let found_at = find_pair(&r, a, b);
                let ghost r0 = r@;
                if found_at.is_some() {
                    let t = found_at.unwrap();
                    let old_w = r[t].tenths;
                    proof {
                        assert(old_w <= 10 * k);
                    }
                    r[t] = PairWeight { i: a, j: b, tenths: old_w + w };
                    assert forall|i: int, j: int|
                        0 <= i < j < part@.len() && pair_weight(ents, post, part@, i, j) > 0 implies exists|
                            u: int,
                        | 0 <= u < r@.len() && #[trigger] r@[u].i == i && r@[u].j == j by {
                        if (i, j) != (a as int, b as int) {
                            let u = choose|u: int| 0 <= u < r0.len() && #[trigger] r0[u].i == i && r0[u].j == j;
                            assert(r@[u].i == i);
                        } else {
                            assert(r@[t as int].i == i);
                        }
                    }
                } else {
                    r.push(PairWeight { i: a, j: b, tenths: w });
                    assert forall|i: int, j: int|
                        0 <= i < j < part@.len() && pair_weight(ents, post, part@, i, j) > 0 implies exists|
                            u: int,
                        | 0 <= u < r@.len() && #[trigger] r@[u].i == i && r@[u].j == j by {
                        if (i, j) != (a as int, b as int) {
                            let u = choose|u: int| 0 <= u < r0.len() && #[trigger] r0[u].i == i && r0[u].j == j;
                            assert(r@[u].i == i);
                        } else {
                            assert(r@[r0.len() as int].i == i);
                        }
                    }
                }
            } else {
                proof {
                    if gi != gj && part@.contains(gi) && part@.contains(gj) {
                        let x = choose|l: int| 0 <= l < part@.len() && part@[l] == gi;
                    }
                    assert(local_pair(ents, edge@, part@) is None);
                    assert forall|i: int, j: int| true implies pair_weight(ents, post, part@, i, j)
                        == pair_weight(ents, pre, part@, i, j) by {}
                }
            }
            k = k + 1;
        }
        proof {
            assert(evs.take(evs.len() as int) =~= evs);
        }
        r
    }

    /// The weighted degree of every entity, in tenths: each edge adds its
    /// weight to its source and, unless it is a self-loop, to its target.
    pub fn degrees(&self) -> (d: Vec<u64>)
        requires
            self.wf(),
            self.size_ok(),
        ensures
            d@.len() == self.ents().len(),
            forall|x: int|
                0 <= x < d@.len() ==> #[trigger] d@[x] == degree(self.ents(), self.edge_views(), x),
    {
        let ghost ents = self.ents();
        let ghost evs = self.edge_views();
        let n = self.entities.len();
        let mut d: Vec<u64> = Vec::new();
        let mut x: usize = 0;
        while x < n
            invariant
                x <= n,
                n == ents.len(),
                d@.len() == x,
                forall|y: int| 0 <= y < x ==> #[trigger] d@[y] == 0,
            decreases n - x,
        {
            d.push(0);
            x = x + 1;
        }
        let mut k: usize = 0;
        while k < self.edges.len()
            invariant
                self.wf(),
                self.size_ok(),
                ents == self.ents(),
                evs == self.edge_views(),
                k <= evs.len(),
                d@.len() == ents.len(),
                forall|y: int|
                    0 <= y < d@.len() ==> #[trigger] d@[y] == degree(ents, evs.take(k as int), y),
            decreases evs.len() - k,
        {
            let edge = &self.edges[k];
            proof {
                assert(evs[k as int] == edge@);
                assert(self.ents().contains(evs[k as int].from));
            }
            let i = self.index_of(&edge.from);
            let j = self.index_of(&edge.to);
            let w = edge.weight.as_tenths();
            let ghost pre = evs.take(k as int);
            let ghost post = evs.take(k + 1);
            proof {
                assert(post.drop_last() =~= pre);
                assert(post.last() == edge@);
                lemma_degree_bounds(ents, pre, i as int);
                lemma_degree_bounds(ents, pre, j as int);
            }
            let ghost d0 = d@;
            d[i] = d[i] + w;
            if i != j {
                d[j] = d[j] + w;
            }
            proof {
                assert forall|y: int| 0 <= y < d@.len() implies #[trigger] d@[y] == degree(ents, post, y) by {
                    assert(d0[y] == degree(ents, pre, y));
                }
            }
            k = k + 1;
        }
        proof {
            assert(evs.take(evs.len() as int) =~= evs);
        }
        d
    }
}

/// Whether an edge joins two entities whose indices both lie in `part`.
pub open spec fn edge_inside(ents: Seq<EntityView>, part: Seq<usize>, e: EdgeView) -> bool {
    part.contains(index_in(ents, e.from) as usize) && part.contains(index_in(ents, e.to) as usize)
}

/// [`edge_inside`] as a predicate on edges.
pub open spec fn inside(ents: Seq<EntityView>, part: Seq<usize>) -> spec_fn(EdgeView) -> bool {
    |e: EdgeView| edge_inside(ents, part, e)
}

/// The entities of `part`, in the order of `part`.
pub open spec fn part_ents(ents: Seq<EntityView>, part: Seq<usize>) -> Seq<EntityView> {
    part.map_values(|g: usize| ents[g as int])
}

/// One step of the degree-gradient adjustment of the Fiedler approximation
/// for entity `i`: an edge joining `i` to another entity adds one tenth if
/// `i`'s degree is at least the other's, and takes one away otherwise.
pub open spec fn adjust_step(ents: Seq<EntityView>, all: Seq<EdgeView>, e: EdgeView, i: int) -> int {
    let gi = index_in(ents, e.from);
    let gj = index_in(ents, e.to);
    if gi != gj && (gi == i || gj == i) {
        let other = if gi == i {
            gj
        } else {
            gi
        };
        if degree(ents, all, i) >= degree(ents, all, other) {
            1
        } else {
            -1
        }
    } else {
        0
    }
}

/// The summed adjustment steps of the edges `es` for entity `i`.
pub open spec fn adjust(ents: Seq<EntityView>, all: Seq<EdgeView>, es: Seq<EdgeView>, i: int) -> int
    decreases es.len(),
{
    if es.len() == 0 {
        0
    } else {
        adjust(ents, all, es.drop_last(), i) + adjust_step(ents, all, es.last(), i)
    }
}

proof fn lemma_adjust_bounds(ents: Seq<EntityView>, all: Seq<EdgeView>, es: Seq<EdgeView>, i: int)
    ensures
        -es.len() <= adjust(ents, all, es, i) <= es.len(),
    decreases es.len(),
{
    if es.len() > 0 {
        lemma_adjust_bounds(ents, all, es.drop_last(), i);
    }
}

/// The degree-based approximation of the Fiedler coordinate of entity `i`,
/// in tenths. With fewer than two entities every coordinate is 0. Without a
/// spectral gap (a disconnected graph) the coordinate is the degree. With a
/// gap it starts at `+1.0` when the degree exceeds 0.9 times the average
/// degree and at `-1.0` otherwise, and every edge joining `i` to another
/// entity moves it by `±0.1` along the degree gradient.
pub open spec fn fiedler_coord(ents: Seq<EntityView>, es: Seq<EdgeView>, connected: bool, i: int) -> int {
    let n = ents.len() as int;
    if n < 2 {
        0
    } else if !connected {
        degree(ents, es, i)
    } else {
        (if 10 * n * degree(ents, es, i) > 9 * total_degree(ents, es, n) {
            10
        } else {
            -10
        }) + adjust(ents, es, es, i)
    }
}

/// Whether edge `e` joins entity `i` to another entity, and that entity's
/// degree is at most `i`'s: such an edge moves `i` up by a tenth.
pub open spec fn toward_lower(ents: Seq<EntityView>, es: Seq<EdgeView>, i: int) -> spec_fn(EdgeView) -> bool {
    |e: EdgeView|
        {
            let f = index_in(ents, e.from);
            let t = index_in(ents, e.to);
            &&& f != t
            &&& (f == i && degree(ents, es, t) <= degree(ents, es, i)) || (t == i && degree(ents, es, f) <= degree(
                ents,
                es,
                i,
            ))
        }
}

/// Whether edge `e` joins entity `i` to another entity of higher degree: such
/// an edge moves `i` down by a tenth.
pub open spec fn toward_higher(ents: Seq<EntityView>, es: Seq<EdgeView>, i: int) -> spec_fn(EdgeView) -> bool {
    |e: EdgeView|
        {
            let f = index_in(ents, e.from);
            let t = index_in(ents, e.to);
            &&& f != t
            &&& (f == i && degree(ents, es, t) > degree(ents, es, i)) || (t == i && degree(ents, es, f) > degree(
                ents,
                es,
                i,
            ))
        }
}

proof fn lemma_adjust_counts(ents: Seq<EntityView>, all: Seq<EdgeView>, es: Seq<EdgeView>, i: int)
    ensures
        adjust(ents, all, es, i) == es.filter(toward_lower(ents, all, i)).len() - es.filter(
            toward_higher(ents, all, i),
        ).len(),
    decreases es.len(),
{
    if es.len() > 0 {
        let pre = es.drop_last();
        let e = es.last();
        lemma_adjust_counts(ents, all, pre, i);
        assert(es =~= pre.push(e));
        pre.lemma_filter_len_push(toward_lower(ents, all, i), e);
        pre.lemma_filter_len_push(toward_higher(ents, all, i), e);
    }
}

/// The degree-gradient law of the Fiedler approximation: on a connected
/// graph of two or more entities, the coordinate of entity `i` starts at
/// `+10` tenths when its degree exceeds 0.9 times the average degree and at
/// `-10` otherwise, then gains a tenth for every edge joining `i` to an
/// entity of no higher degree and loses one for every edge joining it to an
/// entity of higher degree. Without a spectral gap the coordinate is the
/// degree itself.
pub proof fn lemma_fiedler_coord_gradient(ents: Seq<EntityView>, es: Seq<EdgeView>, i: int)
    requires
        ents.len() >= 2,
    ensures
        fiedler_coord(ents, es, true, i) == (if 10 * ents.len() * degree(ents, es, i) > 9 * total_degree(
            ents,
            es,
            ents.len() as int,
        ) {
            10
        } else {
            -10
        }) + es.filter(toward_lower(ents, es, i)).len() - es.filter(toward_higher(ents, es, i)).len(),
        fiedler_coord(ents, es, false, i) == degree(ents, es, i),
{
    lemma_adjust_counts(ents, es, es, i);
}

/// Which side of the Fiedler cut an entity falls on, with its coordinate.
#[derive(Debug)]
pub struct PartitionSide {
    /// The entity's label.
    pub entity: String,
    /// `"A"` for a non-negative coordinate, `"B"` for a negative one.
    pub side: String,
    /// The Fiedler coordinate, in tenths.
    pub fiedler_tenths: i64,
}

impl CodeGraph {
    /// The graph restricted to the entities of `part` (given by index, in
    /// that order), with the edges whose two endpoints both lie in `part`.
    pub fn subgraph(&self, part: &Vec<usize>) -> (sub: CodeGraph)
        requires
            self.wf(),
            valid_part(part@, self.ents().len() as int),
        ensures
            sub.wf(),
            sub.ents() == part_ents(self.ents(), part@),
            sub.edge_views() == self.edge_views().filter(inside(self.ents(), part@)),
    {
        let ghost ents = self.ents();
        let ghost evs = self.edge_views();
        let mut sub = CodeGraph::new();
        let mut l: usize = 0;
        while l < part.len()
            invariant
                self.wf(),
                ents == self.ents(),
                valid_part(part@, ents.len() as int),
                l <= part@.len(),
                sub.wf(),
                sub.ents() == part_ents(ents, part@.take(l as int)),
                sub.edge_views() == Seq::<EdgeView>::empty(),
            decreases part@.len() - l,
        {
            let g = part[l];
            let ghost x = ents[g as int];
            proof {
                assert(part_ents(ents, part@.take(l + 1)) =~= part_ents(ents, part@.take(l as int)).push(x));
                if part_ents(ents, part@.take(l as int)).contains(x) {
                    let m = choose|m: int| 0 <= m < l && part_ents(ents, part@.take(l as int))[m] == x;
                    assert(ents[part@[m] as int] == ents[g as int]);
                    assert(part@[m] != part@[l as int]);
                }
            }
            sub.add_entity(self.entities[g].clone());
            l = l + 1;
        }
        proof {
            assert(part@.take(part@.len() as int) =~= part@);
        }
        let ghost sents = sub.ents();
        let mut k: usize = 0;
        while k < self.edges.len()
            invariant
                self.wf(),
                ents == self.ents(),
                evs == self.edge_views(),
                valid_part(part@, ents.len() as int),
                sub.wf(),
                sub.ents() == sents,
                sents == part_ents(ents, part@),
                k <= evs.len(),
                sub.edge_views() == evs.take(k as int).filter(inside(ents, part@)),
            decreases evs.len() - k,
        {
            let edge = &self.edges[k];
            proof {
                assert(evs[k as int] == edge@);
                assert(self.ents().contains(evs[k as int].from));
                assert(evs.take(k + 1) =~= evs.take(k as int).push(edge@));
                evs.take(k as int).lemma_filter_push(edge@, inside(ents, part@));
            }
            let i = self.index_of(&edge.from);
            let j = self.index_of(&edge.to);
            let li = find_index(part, i);
            let lj = find_index(part, j);
            if li.is_some() && lj.is_some() {
                proof {
                    let a = li.unwrap() as int;
                    let b = lj.unwrap() as int;
                    assert(sents[a] == edge@.from);
                    assert(sents[b] == edge@.to);
                    lemma_with_entity(sents, edge@.from, edge@.from);
                    assert(with_entity(sents, edge@.from) == sents);
                    assert(with_entity(sents, edge@.to) == sents);
                    assert(part@[a] == i && part@[b] == j);
                    assert(part@.contains(i) && part@.contains(j));
                    assert(edge_inside(ents, part@, edge@));
                    assert(inside(ents, part@)(edge@));
                }
                sub.add_edge(edge.clone());
            } else {
                proof {
                    assert(!edge_inside(ents, part@, edge@));
                    assert(!inside(ents, part@)(edge@));
                }
            }
            k = k + 1;
        }
        proof {
            assert(evs.take(evs.len() as int) =~= evs);
        }
        sub
    }

    /// The degree-based approximation of the Fiedler vector, in tenths, one
    /// coordinate per entity. `connected` says whether the spectral solver
    /// found a gap: at least two eigenvalues, the second one at least `1e-10`.
    pub fn fiedler_coordinates(&self, connected: bool) -> (c: Vec<i64>)
        requires
            self.wf(),
            self.size_ok(),
        ensures
            c@.len() == self.ents().len(),
            forall|i: int|
                0 <= i < c@.len() ==> #[trigger] c@[i] == fiedler_coord(
                    self.ents(),
                    self.edge_views(),
                    connected,
                    i,
                ),
            connected && self.ents().len() >= 2 ==> forall|i: int|
                0 <= i < c@.len() ==> #[trigger] c@[i] == (if 10 * self.ents().len() * degree(
                    self.ents(),
                    self.edge_views(),
                    i,
                ) > 9 * total_degree(self.ents(), self.edge_views(), self.ents().len() as int) {
                    10
                } else {
                    -10
                }) + self.edge_views().filter(toward_lower(self.ents(), self.edge_views(), i)).len()
                    - self.edge_views().filter(toward_higher(self.ents(), self.edge_views(), i)).len(),
    {
        let ghost ents = self.ents();
        let ghost evs = self.edge_views();
        let n = self.entities.len();
        let mut c: Vec<i64> = Vec::new();
        if n < 2 {
            let mut x: usize = 0;
            while x < n
                invariant
                    x <= n,
                    n == ents.len(),
                    n < 2,
                    c@.len() == x,
                    forall|y: int| 0 <= y < x ==> #[trigger] c@[y] == 0,
                decreases n - x,
            {
                c.push(0);
                x = x + 1;
            }
            return c;
        }
        let d = self.degrees();
        if !connected {
            let mut x: usize = 0;
            while x < n
                invariant
                    x <= n,
                    n == ents.len(),
                    n >= 2,
                    !connected,
                    d@.len() == n,
                    forall|y: int| 0 <= y < n ==> #[trigger] d@[y] == degree(ents, evs, y),
                    self.size_ok(),
                    evs.len() == self.edges@.len(),
                    c@.len() == x,
                    forall|y: int| 0 <= y < x ==> #[trigger] c@[y] == fiedler_coord(ents, evs, connected, y),
                decreases n - x,
            {
                proof {
                    lemma_degree_bounds(ents, evs, x as int);
                }
                c.push(d[x] as i64);
                x = x + 1;
            }
            return c;
        }
        let mut total: u128 = 0;
        let mut x: usize = 0;
        assert(n == self.entities@.len());
        while x < n
            invariant
                x <= n,
                n == ents.len(),
                d@.len() == n,
                forall|y: int| 0 <= y < n ==> #[trigger] d@[y] == degree(ents, evs, y),
                self.size_ok(),
                evs.len() == self.edges@.len(),
                n <= 0x100_0000_0000,
                total == total_degree(ents, evs, x as int),
            decreases n - x,
        {
            proof {
                lemma_total_degree_bounds(ents, evs, x + 1);
                assert(20 * evs.len() * (x + 1) <= 20 * 0x100_0000_0000 * 0x100_0000_0000) by (nonlinear_arith)
                    requires
                        evs.len() <= 0x100_0000_0000,
                        x + 1 <= 0x100_0000_0000,
                ;
            }
            total = total + d[x] as u128;
            x = x + 1;
        }
        let mut i: usize = 0;
        while i < n
            invariant
                self.wf(),
                self.size_ok(),
                ents == self.ents(),
                evs == self.edge_views(),
                i <= n,
                n == ents.len(),
                n <= 0x100_0000_0000,
                n >= 2,
                connected,
                d@.len() == n,
                forall|y: int| 0 <= y < n ==> #[trigger] d@[y] == degree(ents, evs, y),
                total == total_degree(ents, evs, n as int),
                c@.len() == i,
                forall|y: int| 0 <= y < i ==> #[trigger] c@[y] == fiedler_coord(ents, evs, connected, y),
            decreases n - i,
        {
            assert(evs.len() == self.edges@.len());
            proof {
                lemma_degree_bounds(ents, evs, i as int);
                lemma_total_degree_bounds(ents, evs, n as int);
                assert(10 * n * d@[i as int] <= 10 * 0x100_0000_0000 * (20 * 0x100_0000_0000)) by (nonlinear_arith)
                    requires
                        n <= 0x100_0000_0000,
                        d@[i as int] <= 20 * 0x100_0000_0000,
                ;
                assert(9 * total <= 9 * (20 * 0x100_0000_0000 * 0x100_0000_0000)) by (nonlinear_arith)
                    requires
                        total <= 20 * evs.len() * n,
                        evs.len() <= 0x100_0000_0000,
                        n <= 0x100_0000_0000,
                ;
            }
            assert(n <= 0x100_0000_0000);
            assert(d@[i as int] <= 20 * 0x100_0000_0000);
            assert(10 * n <= 10 * 0x100_0000_0000);
            let tn: u128 = 10 * (n as u128);
            let dd: u128 = d[i] as u128;
            proof {
                vstd::arithmetic::mul::lemma_mul_upper_bound(
                    tn as int,
                    10 * 0x100_0000_0000int,
                    dd as int,
                    20 * 0x100_0000_0000int,
                );
                assert((10 * 0x100_0000_0000int) * (20 * 0x100_0000_0000int)
                    == 0xC8_0000_0000_0000_0000_0000int) by (nonlinear_arith);
                assert(tn * dd <= 0xC8_0000_0000_0000_0000_0000int);
            }
            let lhs: u128 = tn * dd;
            let rhs: u128 = 9 * total;
            let mut v: i64 = if lhs > rhs {
                10
            } else {
                -10
            };
            let ghost base = v as int;
            let mut k: usize = 0;
            while k < self.edges.len()
                invariant
                    self.wf(),
                    self.size_ok(),
                    ents == self.ents(),
                    evs == self.edge_views(),
                    i < n,
                    n == ents.len(),
                    d@.len() == n,
                    forall|y: int| 0 <= y < n ==> #[trigger] d@[y] == degree(ents, evs, y),
                    k <= evs.len(),
                    base == 10 || base == -10,
                    v == base + adjust(ents, evs, evs.take(k as int), i as int),
                decreases evs.len() - k,
            {
                let edge = &self.edges[k];
                proof {
                    assert(evs[k as int] == edge@);
                    assert(self.ents().contains(evs[k as int].from));
                    assert(evs.take(k + 1).drop_last() =~= evs.take(k as int));
                    lemma_adjust_bounds(ents, evs, evs.take(k as int), i as int);
                }
                let ei = self.index_of(&edge.from);
                let ej = self.index_of(&edge.to);
                if ei != ej && (ei == i || ej == i) {
                    let other = if ei == i {
                        ej
                    } else {
                        ei
                    };
                    if d[i] >= d[other] {
                        v = v + 1;
                    } else {
                        v = v - 1;
                    }
                }
                k = k + 1;
            }
            proof {
                assert(evs.take(evs.len() as int) =~= evs);
            }
            c.push(v);
            i = i + 1;
        }
        proof {
            assert forall|i: int| 0 <= i < c@.len() implies #[trigger] c@[i] == (if 10 * ents.len() * degree(
                ents,
                evs,
                i,
            ) > 9 * total_degree(ents, evs, ents.len() as int) {
                10
            } else {
                -10
            }) + evs.filter(toward_lower(ents, evs, i)).len() - evs.filter(toward_higher(ents, evs, i)).len() by {
                lemma_fiedler_coord_gradient(ents, evs, i);
            }
        }
        c
    }

    /// The suggested module boundary from the Fiedler cut: every entity with
    /// its side (`"A"` for a non-negative coordinate, `"B"` otherwise) and
    /// its coordinate. Empty unless the solver returned at least two
    /// eigenvalues; `lambda2_positive` says whether the second is at least `1e-10`.
    pub fn suggested_partition(&self, spectrum_len: usize, lambda2_positive: bool) -> (r: Vec<
        PartitionSide,
    >)
        requires
            self.wf(),
            self.size_ok(),
        ensures
            spectrum_len < 2 ==> r@.len() == 0,
            spectrum_len >= 2 ==> r@.len() == self.ents().len(),
            spectrum_len >= 2 ==> forall|i: int|
                0 <= i < r@.len() ==> {
                    let c = fiedler_coord(self.ents(), self.edge_views(), lambda2_positive, i);
                    &&& (#[trigger] r@[i]).entity@ == label(self.ents()[i])
                    &&& r@[i].fiedler_tenths == c
                    &&& r@[i].side@ == (if c >= 0 {
                        seq!['A']
                    } else {
                        seq!['B']
                    })
                },
    {
        let mut r: Vec<PartitionSide> = Vec::new();
        if spectrum_len < 2 {
            return r;
        }
        let c = self.fiedler_coordinates(lambda2_positive);
        let mut i: usize = 0;
        while i < self.entities.len()
            invariant
                spectrum_len >= 2,
                i <= self.ents().len(),
                c@.len() == self.ents().len(),
                forall|y: int|
                    0 <= y < c@.len() ==> #[trigger] c@[y] == fiedler_coord(
                        self.ents(),
                        self.edge_views(),
                        lambda2_positive,
                        y,
                    ),
                r@.len() == i,
                forall|y: int|
                    0 <= y < i ==> {
                        let cy = fiedler_coord(self.ents(), self.edge_views(), lambda2_positive, y);
                        &&& (#[trigger] r@[y]).entity@ == label(self.ents()[y])
                        &&& r@[y].fiedler_tenths == cy
                        &&& r@[y].side@ == (if cy >= 0 {
                            seq!['A']
                        } else {
                            seq!['B']
                        })
                    },
            decreases self.ents().len() - i,
        {
            let side = if c[i] >= 0 {
                proof {
                    reveal_strlit("A");
                }
                String::from_str("A")
            } else {
                proof {
                    reveal_strlit("B");
                }
                String::from_str("B")
            };
            assert(self.ents()[i as int] == self.entities@[i as int]@);
            r.push(PartitionSide { entity: self.entities[i].label(), side, fiedler_tenths: c[i] });
            i = i + 1;
        }
        r
    }
}

// ---------------------------------------------------------------------------
// Community detection by repeated spectral bisection
// ---------------------------------------------------------------------------

/// Whether entity index `g` of `part` falls on side A of the Fiedler cut of
/// the sub-graph on `part`: its coordinate there is non-negative.
pub open spec fn on_side_a(ents: Seq<EntityView>, es: Seq<EdgeView>, part: Seq<usize>) -> spec_fn(usize) -> bool {
    |g: usize|
        fiedler_coord(part_ents(ents, part), es.filter(inside(ents, part)), true, index_in(part, g)) >= 0
}

/// Whether entity index `g` of `part` falls on side B of the Fiedler cut.
pub open spec fn on_side_b(ents: Seq<EntityView>, es: Seq<EdgeView>, part: Seq<usize>) -> spec_fn(usize) -> bool {
    |g: usize| !on_side_a(ents, es, part)(g)
}

/// All the indices held by a sequence of parts, with multiplicity.
pub open spec fn parts_mset(s: Seq<Vec<usize>>) -> Multiset<usize>
    decreases s.len(),
{
    if s.len() == 0 {
        Multiset::empty()
    } else {
        parts_mset(s.drop_last()).add(s.last()@.to_multiset())
    }
}

/// The indices `0..n`, each once.
pub open spec fn index_range(n: int) -> Seq<usize> {
    Seq::new(n as nat, |i: int| i as usize)
}

proof fn lemma_parts_mset_push(s: Seq<Vec<usize>>, p: Vec<usize>)
    ensures
        parts_mset(s.push(p)) == parts_mset(s).add(p@.to_multiset()),
{
    assert(s.push(p).drop_last() =~= s);
}

/// An index held at two different places of a sequence occurs twice in it.
proof fn lemma_seq_count_two(s: Seq<usize>, i: int, j: int)
    requires
        0 <= i < s.len(),
        0 <= j < s.len(),
        i != j,
        s[i] == s[j],
    ensures
        s.to_multiset().count(s[i]) >= 2,
{
    broadcast use vstd::seq_lib::group_to_multiset_ensures, vstd::multiset::group_multiset_axioms;

    let r = s.remove(i);
    let j2 = if j < i {
        j
    } else {
        j - 1
    };
    assert(r[j2] == s[i]);
    assert(r.contains(s[i]));
    assert(r.to_multiset().count(s[i]) > 0);
    assert(s.contains(s[i]));
    assert(s.to_multiset().count(s[i]) > 0);
    assert(r.to_multiset() =~= s.to_multiset().remove(s[i]));
    assert(r.to_multiset().count(s[i]) == s.to_multiset().count(s[i]) - 1);
}

/// Every index held by one of the parts is counted, and an index held at
/// two different places is counted twice.
proof fn lemma_parts_mset_count(s: Seq<Vec<usize>>, c1: int, k1: int, c2: int, k2: int)
    requires
        0 <= c1 < s.len(),
        0 <= k1 < s[c1]@.len(),
        0 <= c2 < s.len(),
        0 <= k2 < s[c2]@.len(),
        s[c1]@[k1] == s[c2]@[k2],
    ensures
        parts_mset(s).count(s[c1]@[k1]) >= 1,
        (c1, k1) != (c2, k2) ==> parts_mset(s).count(s[c1]@[k1]) >= 2,
    decreases s.len(),
{
    broadcast use vstd::seq_lib::group_to_multiset_ensures, vstd::multiset::group_multiset_axioms;

    let x = s[c1]@[k1];
    let last = s.len() - 1;
    let init = s.drop_last();
    assert(s[c1]@.contains(x));
    if c1 == last && c2 == last {
        if k1 != k2 {
            lemma_seq_count_two(s[last]@, k1, k2);
        }
    } else if c1 == last {
        assert(init[c2] == s[c2]);
        lemma_parts_mset_count(init, c2, k2, c2, k2);
    } else if c2 == last {
        assert(init[c1] == s[c1]);
        assert(s[c2]@.contains(x));
        lemma_parts_mset_count(init, c1, k1, c1, k1);
    } else {
        assert(init[c1] == s[c1]);
        assert(init[c2] == s[c2]);
        lemma_parts_mset_count(init, c1, k1, c2, k2);
    }
}

/// An index that the parts count is held by one of them.
proof fn lemma_parts_mset_holder(s: Seq<Vec<usize>>, x: usize)
    requires
        parts_mset(s).count(x) >= 1,
    ensures
        exists|c: int, k: int| 0 <= c < s.len() && 0 <= k < s[c]@.len() && #[trigger] s[c]@[k] == x,
    decreases s.len(),
{
    broadcast use vstd::seq_lib::group_to_multiset_ensures, vstd::multiset::group_multiset_axioms;

    let last = s.len() - 1;
    let init = s.drop_last();
    if s[last]@.to_multiset().count(x) >= 1 {
        let k = choose|k: int| 0 <= k < s[last]@.len() && s[last]@[k] == x;
        assert(s[last]@[k] == x);
    } else {
        lemma_parts_mset_holder(init, x);
        let (c, k) = choose|c: int, k: int| 0 <= c < init.len() && 0 <= k < init[c]@.len() && #[trigger] init[c]@[k] == x;
        assert(s[c] == init[c]);
        assert(s[c]@[k] == x);
    }
}

/// Each of `0..n` occurs once in the range, and nothing else occurs.
proof fn lemma_index_range_count(n: int, x: usize)
    requires
        0 <= n <= usize::MAX + 1,
    ensures
        index_range(n).to_multiset().count(x) == if x < n {
            1nat
        } else {
            0nat
        },
{
    broadcast use vstd::seq_lib::group_to_multiset_ensures, vstd::multiset::group_multiset_axioms;

    let r = index_range(n);
    assert forall|a: int, b: int| 0 <= a < r.len() && 0 <= b < r.len() && a != b implies r[a] != r[b] by {
        assert(r[a] == a as usize && r[b] == b as usize);
    }
    assert(r.no_duplicates());
    r.lemma_multiset_has_no_duplicates();
    if x < n {
        assert(r[x as int] == x);
    } else {
        assert(!r.contains(x));
    }
}

proof fn lemma_step_leaf(
    comm: Seq<Vec<usize>>,
    next: Seq<Vec<usize>>,
    c0: Multiset<usize>,
    done: Seq<Vec<usize>>,
    part: Vec<usize>,
    copy: Vec<usize>,
)
    requires
        parts_mset(comm).add(parts_mset(next)) == c0.add(parts_mset(done)),
        copy@ == part@,
    ensures
        parts_mset(comm.push(copy)).add(parts_mset(next)) == c0.add(parts_mset(done.push(part))),
{
    broadcast use vstd::multiset::group_multiset_axioms;

    lemma_parts_mset_push(comm, copy);
    lemma_parts_mset_push(done, part);
    assert forall|v: usize| #[trigger] parts_mset(comm.push(copy)).add(parts_mset(next)).count(v) == c0.add(
        parts_mset(done.push(part)),
    ).count(v) by {
        assert(parts_mset(comm).add(parts_mset(next)).count(v) == c0.add(parts_mset(done)).count(v));
        assert(parts_mset(comm).add(parts_mset(next)).count(v) == parts_mset(comm).count(v) + parts_mset(next).count(v));
        assert(c0.add(parts_mset(done)).count(v) == c0.count(v) + parts_mset(done).count(v));
        assert(parts_mset(comm).add(copy@.to_multiset()).count(v) == parts_mset(comm).count(v) + copy@.to_multiset().count(v));
        assert(parts_mset(done).add(part@.to_multiset()).count(v) == parts_mset(done).count(v) + part@.to_multiset().count(v));
        assert(parts_mset(comm.push(copy)).add(parts_mset(next)).count(v) == parts_mset(comm.push(copy)).count(v) + parts_mset(next).count(v));
        assert(c0.add(parts_mset(done.push(part))).count(v) == c0.count(v) + parts_mset(done.push(part)).count(v));
    }
    assert(parts_mset(comm.push(copy)).add(parts_mset(next)) =~= c0.add(parts_mset(done.push(part))));
}

proof fn lemma_step_split(
    comm: Seq<Vec<usize>>,
    next: Seq<Vec<usize>>,
    c0: Multiset<usize>,
    done: Seq<Vec<usize>>,
    part: Vec<usize>,
    a: Vec<usize>,
    b: Vec<usize>,
)
    requires
        parts_mset(comm).add(parts_mset(next)) == c0.add(parts_mset(done)),
        a@.to_multiset().add(b@.to_multiset()) == part@.to_multiset(),
    ensures
        parts_mset(comm).add(parts_mset(next.push(a).push(b))) == c0.add(parts_mset(done.push(part))),
{
    broadcast use vstd::multiset::group_multiset_axioms;

    lemma_parts_mset_push(next, a);
    lemma_parts_mset_push(next.push(a), b);
    lemma_parts_mset_push(done, part);
    assert forall|v: usize| #[trigger] parts_mset(comm).add(parts_mset(next.push(a).push(b))).count(v)
        == c0.add(parts_mset(done.push(part))).count(v) by {
        assert(parts_mset(comm).add(parts_mset(next)).count(v) == c0.add(parts_mset(done)).count(v));
        assert(a@.to_multiset().add(b@.to_multiset()).count(v) == part@.to_multiset().count(v));
        assert(parts_mset(comm).add(parts_mset(next)).count(v) == parts_mset(comm).count(v) + parts_mset(next).count(v));
        assert(c0.add(parts_mset(done)).count(v) == c0.count(v) + parts_mset(done).count(v));
        assert(a@.to_multiset().add(b@.to_multiset()).count(v) == a@.to_multiset().count(v) + b@.to_multiset().count(v));
        assert(parts_mset(next).add(a@.to_multiset()).count(v) == parts_mset(next).count(v) + a@.to_multiset().count(v));
        assert(parts_mset(next.push(a)).add(b@.to_multiset()).count(v) == parts_mset(next.push(a)).count(v) + b@.to_multiset().count(v));
        assert(parts_mset(done).add(part@.to_multiset()).count(v) == parts_mset(done).count(v) + part@.to_multiset().count(v));
        assert(parts_mset(comm).add(parts_mset(next.push(a).push(b))).count(v) == parts_mset(comm).count(v) + parts_mset(next.push(a).push(b)).count(v));
        assert(c0.add(parts_mset(done.push(part))).count(v) == c0.count(v) + parts_mset(done.push(part)).count(v));
    }
    assert(parts_mset(comm).add(parts_mset(next.push(a).push(b))) =~= c0.add(
        parts_mset(done.push(part)),
    ));
}

/// A part held by a sequence of parts is a sub-multiset of the whole.
proof fn lemma_parts_mset_sub(s: Seq<Vec<usize>>, c: int, x: usize)
    requires
        0 <= c < s.len(),
    ensures
        s[c]@.to_multiset().count(x) <= parts_mset(s).count(x),
    decreases s.len(),
{
    broadcast use vstd::multiset::group_multiset_axioms;

    if c < s.len() - 1 {
        assert(s.drop_last()[c] == s[c]);
        lemma_parts_mset_sub(s.drop_last(), c, x);
    }
}

/// A part whose indices together with the others make up `0..n` exactly once
/// is a valid part.
proof fn lemma_part_valid(s: Seq<Vec<usize>>, extra: Multiset<usize>, c: int, n: int)
    requires
        0 <= c < s.len(),
        0 <= n <= usize::MAX,
        parts_mset(s).add(extra) == index_range(n).to_multiset(),
    ensures
        valid_part(s[c]@, n),
{
    broadcast use vstd::seq_lib::group_to_multiset_ensures, vstd::multiset::group_multiset_axioms;

    let p = s[c]@;
    assert forall|x: usize| p.to_multiset().contains(x) implies p.to_multiset().count(x) == 1 by {
        lemma_parts_mset_sub(s, c, x);
        lemma_index_range_count(n, x);
    }
    p.lemma_multiset_has_no_duplicates_conv();
    assert forall|l: int| 0 <= l < p.len() implies #[trigger] p[l] < n by {
        assert(p.contains(p[l]));
        lemma_parts_mset_sub(s, c, p[l]);
        lemma_index_range_count(n, p[l]);
    }
}

/// A valid part holds at most as many indices as the graph has entities.
proof fn lemma_part_len(s: Seq<usize>, n: int)
    requires
        valid_part(s, n),
        n >= 0,
    ensures
        s.len() <= n,
    decreases n,
{
    if n == 0 {
        if s.len() > 0 {
            assert(s[0] < n);
        }
    } else if s.contains((n - 1) as usize) {
        let i = choose|i: int| 0 <= i < s.len() && s[i] == (n - 1) as usize;
        let t = s.remove(i);
        assert forall|l: int| 0 <= l < t.len() implies #[trigger] t[l] < n - 1 by {
            if l < i {
                assert(t[l] == s[l]);
            } else {
                assert(t[l] == s[l + 1]);
            }
        }
        assert(t.no_duplicates()) by {
            assert forall|x: int, y: int| 0 <= x < t.len() && 0 <= y < t.len() && x != y implies t[x] != t[y] by {
                let sx = if x < i { x } else { x + 1 };
                let sy = if y < i { y } else { y + 1 };
                assert(t[x] == s[sx] && t[y] == s[sy]);
            }
        }
        lemma_part_len(t, n - 1);
    } else {
        assert forall|l: int| 0 <= l < s.len() implies #[trigger] s[l] < n - 1 by {
            assert(s[l] != (n - 1) as usize);
        }
        lemma_part_len(s, n - 1);
    }
}

/// Whether `l` is the label of one of the entities.
pub open spec fn labels_entity(ents: Seq<EntityView>, l: Seq<char>) -> bool {
    exists|i: int| 0 <= i < ents.len() && l == label(ents[i])
}

/// Whether one of the communities lists the label `l`.
pub open spec fn listed_in(r: Seq<Vec<String>>, l: Seq<char>) -> bool {
    exists|c: int, k: int| 0 <= c < r.len() && 0 <= k < r[c]@.len() && r[c]@[k]@ == l
}

/// Labelling the parts of an exact partition of `0..n` entity by entity
/// gives every entity's label exactly once.
proof fn lemma_label_partition(ents: Seq<EntityView>, parts: Seq<Vec<usize>>, r: Seq<Vec<String>>)
    requires
        ents.no_duplicates(),
        ents.len() <= usize::MAX,
        parts_mset(parts) == index_range(ents.len() as int).to_multiset(),
        r.len() == parts.len(),
        forall|c: int, k: int|
            0 <= c < parts.len() && 0 <= k < parts[c]@.len() ==> #[trigger] parts[c]@[k] < ents.len(),
        forall|c: int|
            0 <= c < r.len() ==> (#[trigger] r[c])@.len() == parts[c]@.len() && forall|k: int|
                0 <= k < r[c]@.len() ==> #[trigger] r[c]@[k]@ == label(ents[parts[c]@[k] as int]),
    ensures
        forall|c: int, k: int|
            0 <= c < r.len() && 0 <= k < r[c]@.len() ==> labels_entity(ents, #[trigger] r[c]@[k]@),
        forall|i: int| 0 <= i < ents.len() ==> listed_in(r, label(#[trigger] ents[i])),
        forall|c1: int, k1: int, c2: int, k2: int|
            0 <= c1 < r.len() && 0 <= k1 < r[c1]@.len() && 0 <= c2 < r.len() && 0 <= k2 < r[c2]@.len()
                && (c1, k1) != (c2, k2) ==> #[trigger] r[c1]@[k1]@ != #[trigger] r[c2]@[k2]@,
{
    let n = ents.len() as int;
    assert forall|c: int, k: int| 0 <= c < r.len() && 0 <= k < r[c]@.len() implies labels_entity(
        ents,
        #[trigger] r[c]@[k]@,
    ) by {
        let g = parts[c]@[k] as int;
        assert(r[c]@[k]@ == label(ents[g]));
        assert(0 <= g < ents.len());
    }
    assert forall|i: int| 0 <= i < ents.len() implies listed_in(r, label(#[trigger] ents[i])) by {
        lemma_index_range_count(n, i as usize);
        lemma_parts_mset_holder(parts, i as usize);
        let (c, k) = choose|c: int, k: int|
            0 <= c < parts.len() && 0 <= k < parts[c]@.len() && #[trigger] parts[c]@[k] == i as usize;
        assert(r[c]@[k]@ == label(ents[i]));
    }
    assert forall|c1: int, k1: int, c2: int, k2: int|
        0 <= c1 < r.len() && 0 <= k1 < r[c1]@.len() && 0 <= c2 < r.len() && 0 <= k2 < r[c2]@.len()
            && (c1, k1) != (c2, k2) implies #[trigger] r[c1]@[k1]@ != #[trigger] r[c2]@[k2]@ by {
        let g1 = parts[c1]@[k1];
        let g2 = parts[c2]@[k2];
        assert(r[c1]@[k1]@ == label(ents[g1 as int]));
        assert(r[c2]@[k2]@ == label(ents[g2 as int]));
        if g1 == g2 {
            lemma_parts_mset_count(parts, c1, k1, c2, k2);
            lemma_index_range_count(n, g1);
        } else if r[c1]@[k1]@ == r[c2]@[k2]@ {
            lemma_label_injective(ents[g1 as int], ents[g2 as int]);
        }
    }
}

/// A copy of a part.
fn copy_part(v: &Vec<usize>) -> (r: Vec<usize>)
    ensures
        r@ == v@,
{
    let mut r: Vec<usize> = Vec::new();
    let mut i: usize = 0;
    while i < v.len()
        invariant
            i <= v@.len(),
            r@ == v@.take(i as int),
        decreases v@.len() - i,
    {
        r.push(v[i]);
        i = i + 1;
        assert(r@ =~= v@.take(i as int));
    }
    assert(v@.take(v@.len() as int) =~= v@);
    r
}

impl CodeGraph {
    /// Split `part` (entity indices) along the Fiedler cut of the sub-graph
    /// on it: side A holds the indices whose coordinate is non-negative,
    /// side B the rest, both in the order of `part`.
    pub fn fiedler_split(&self, part: &Vec<usize>) -> (r: (Vec<usize>, Vec<usize>))
        requires
            self.wf(),
            self.size_ok(),
            valid_part(part@, self.ents().len() as int),
        ensures
            r.0@ == part@.filter(on_side_a(self.ents(), self.edge_views(), part@)),
            r.1@ == part@.filter(on_side_b(self.ents(), self.edge_views(), part@)),
            r.0@.to_multiset().add(r.1@.to_multiset()) == part@.to_multiset(),
    {
        broadcast use vstd::seq_lib::group_to_multiset_ensures, vstd::multiset::group_multiset_axioms;

        let ghost ents = self.ents();
        let ghost evs = self.edge_views();
        let sub = self.subgraph(part);
        proof {
            assert(sub.edge_views().len() <= evs.len()) by {
                evs.lemma_filter_len(inside(ents, part@));
            }
            assert(sub.ents().len() == sub.entities@.len());
            assert(sub.ents().len() == part@.len());
            assert(sub.edge_views().len() == sub.edges@.len());
            assert(evs.len() == self.edges@.len());
            lemma_part_len(part@, ents.len() as int);
        }
        let coords = sub.fiedler_coordinates(true);
        let mut a: Vec<usize> = Vec::new();
        let mut b: Vec<usize> = Vec::new();
        let mut l: usize = 0;
        while l < part.len()
            invariant
                valid_part(part@, ents.len() as int),
                l <= part@.len(),
                coords@.len() == part@.len(),
                sub.ents() == part_ents(ents, part@),
                sub.edge_views() == evs.filter(inside(ents, part@)),
                forall|m: int|
                    0 <= m < coords@.len() ==> #[trigger] coords@[m] == fiedler_coord(
                        sub.ents(),
                        sub.edge_views(),
                        true,
                        m,
                    ),
                a@ == part@.take(l as int).filter(on_side_a(ents, evs, part@)),
                b@ == part@.take(l as int).filter(on_side_b(ents, evs, part@)),
                a@.to_multiset().add(b@.to_multiset()) == part@.take(l as int).to_multiset(),
            decreases part@.len() - l,
        {
            let g = part[l];
            proof {
                lemma_index_in(part@, l as int);
                assert(part@.take(l + 1) =~= part@.take(l as int).push(g));
                part@.take(l as int).lemma_filter_push(g, on_side_a(ents, evs, part@));
                part@.take(l as int).lemma_filter_push(g, on_side_b(ents, evs, part@));
                assert(on_side_a(ents, evs, part@)(g) == (coords@[l as int] >= 0));
                assert(on_side_b(ents, evs, part@)(g) == !(coords@[l as int] >= 0));
            }
            let ghost a0 = a@;
            let ghost b0 = b@;
            proof {
                a0.to_multiset_ensures();
                b0.to_multiset_ensures();
                part@.take(l as int).to_multiset_ensures();
            }
            if coords[l] >= 0 {
                a.push(g);
            } else {
                b.push(g);
            }
            proof {
                assert(part@.take(l + 1).to_multiset() =~= part@.take(l as int).to_multiset().insert(g));
                assert(a@.to_multiset().add(b@.to_multiset()) =~= part@.take(l + 1).to_multiset());
            }
            l = l + 1;
        }
        proof {
            assert(part@.take(part@.len() as int) =~= part@);
        }
        (a, b)
    }
}

/// The views of a sequence of parts.
pub open spec fn part_views(s: Seq<Vec<usize>>) -> Seq<Seq<usize>> {
    s.map_values(|v: Vec<usize>| v@)
}

/// One round of bisection over the parts `ps`, given the spectral-gap answer
/// `gs[k]` for each part `ps[k]`: the parts that become communities, in
/// order, and the halves still to be split, in order. A part becomes a
/// community when it has fewer than four entities, when the answer says the
/// solver found no gap, or when its Fiedler cut leaves a side empty; any
/// other part is split into its two sides.
pub open spec fn round(ents: Seq<EntityView>, es: Seq<EdgeView>, ps: Seq<Seq<usize>>, gs: Seq<bool>) -> (
    Seq<Seq<usize>>,
    Seq<Seq<usize>>,
)
    decreases ps.len(),
{
    if ps.len() == 0 {
        (Seq::empty(), Seq::empty())
    } else {
        let (l, nx) = round(ents, es, ps.drop_last(), gs);
        let p = ps.last();
        let a = p.filter(on_side_a(ents, es, p));
        let b = p.filter(on_side_b(ents, es, p));
        if p.len() < 4 || !gs[ps.len() - 1] || a.len() == 0 || b.len() == 0 {
            (l.push(p), nx)
        } else {
            (l, nx.push(a).push(b))
        }
    }
}

/// The communities found and the parts still open after `d` rounds over a
/// graph of `n` entities, given the answers `os[j]` of round `j`. Rounds
/// stop once no part is left open.
pub open spec fn rounds(ents: Seq<EntityView>, es: Seq<EdgeView>, n: int, os: Seq<Seq<bool>>, d: nat) -> (
    Seq<Seq<usize>>,
    Seq<Seq<usize>>,
)
    decreases d,
{
    if d == 0 {
        (Seq::empty(), if n == 0 {
            Seq::empty()
        } else {
            seq![index_range(n)]
        })
    } else {
        let (c, p) = rounds(ents, es, n, os, (d - 1) as nat);
        if p.len() == 0 {
            (c, p)
        } else {
            let (l, nx) = round(ents, es, p, os[d - 1]);
            (c + l, nx)
        }
    }
}

/// The communities of repeated bisection: those found in `d` rounds, then the
/// parts still open.
pub open spec fn bisection(ents: Seq<EntityView>, es: Seq<EdgeView>, n: int, os: Seq<Seq<bool>>, d: nat) -> Seq<
    Seq<usize>,
> {
    rounds(ents, es, n, os, d).0 + rounds(ents, es, n, os, d).1
}

/// Whether the answers `os` of the first `d` rounds are answers `f` can give:
/// each part of four or more entities that is still open gets an answer `f`
/// gives for it.
pub open spec fn answers_ok<F: Fn(&Vec<usize>) -> bool>(
    f: F,
    ents: Seq<EntityView>,
    es: Seq<EdgeView>,
    n: int,
    os: Seq<Seq<bool>>,
    d: nat,
) -> bool {
    forall|j: int, k: int|
        #![trigger rounds(ents, es, n, os, j as nat).1[k]]
        0 <= j < d && 0 <= k < rounds(ents, es, n, os, j as nat).1.len() && rounds(ents, es, n, os, j as nat).1[k].len()
            >= 4 ==> exists|v: &Vec<usize>| v@ == rounds(ents, es, n, os, j as nat).1[k] && f.ensures((v,), os[j][k])
}

/// `2^e`.
pub open spec fn two_to(e: nat) -> nat
    decreases e,
{
    if e == 0 {
        1
    } else {
        2 * two_to((e - 1) as nat)
    }
}

proof fn lemma_two_to_pos(e: nat)
    ensures
        two_to(e) >= 1,
    decreases e,
{
    if e > 0 {
        lemma_two_to_pos((e - 1) as nat);
    }
}

/// A round reads only the answers of its own parts.
proof fn lemma_round_answers(ents: Seq<EntityView>, es: Seq<EdgeView>, ps: Seq<Seq<usize>>, g1: Seq<bool>, g2: Seq<bool>)
    requires
        forall|k: int| 0 <= k < ps.len() ==> g1[k] == g2[k],
    ensures
        round(ents, es, ps, g1) == round(ents, es, ps, g2),
    decreases ps.len(),
{
    if ps.len() > 0 {
        lemma_round_answers(ents, es, ps.drop_last(), g1, g2);
    }
}

/// Each part of a round gives one community or two halves.
proof fn lemma_round_size(ents: Seq<EntityView>, es: Seq<EdgeView>, ps: Seq<Seq<usize>>, gs: Seq<bool>)
    ensures
        2 * round(ents, es, ps, gs).0.len() + round(ents, es, ps, gs).1.len() <= 2 * ps.len(),
    decreases ps.len(),
{
    if ps.len() > 0 {
        lemma_round_size(ents, es, ps.drop_last(), gs);
    }
}

/// The first `d` rounds read only the answers of those rounds.
proof fn lemma_rounds_answers(ents: Seq<EntityView>, es: Seq<EdgeView>, n: int, o1: Seq<Seq<bool>>, o2: Seq<Seq<bool>>, d: nat)
    requires
        forall|j: int| 0 <= j < d ==> o1[j] == o2[j],
    ensures
        rounds(ents, es, n, o1, d) == rounds(ents, es, n, o2, d),
    decreases d,
{
    if d > 0 {
        lemma_rounds_answers(ents, es, n, o1, o2, (d - 1) as nat);
    }
}

/// Once no part is open, later rounds change nothing.
proof fn lemma_rounds_closed(ents: Seq<EntityView>, es: Seq<EdgeView>, n: int, os: Seq<Seq<bool>>, d: nat, e: nat)
    requires
        d <= e,
        rounds(ents, es, n, os, d).1.len() == 0,
    ensures
        rounds(ents, es, n, os, e) == rounds(ents, es, n, os, d),
    decreases e - d,
{
    if d < e {
        lemma_rounds_closed(ents, es, n, os, d, (e - 1) as nat);
    }
}

/// After `d` of `dd` rounds, the communities found plus `2^(dd - d)` for each
/// open part number at most `2^dd`.
proof fn lemma_rounds_count(ents: Seq<EntityView>, es: Seq<EdgeView>, n: int, os: Seq<Seq<bool>>, d: nat, dd: nat)
    requires
        d <= dd,
    ensures
        rounds(ents, es, n, os, d).0.len() + rounds(ents, es, n, os, d).1.len() * two_to((dd - d) as nat) <= two_to(dd),
    decreases d,
{
    if d == 0 {
        lemma_two_to_pos(dd);
        let pl = rounds(ents, es, n, os, 0).1.len() as int;
        let t = two_to(dd) as int;
        assert(pl <= 1);
        assert(pl * t <= t) by (nonlinear_arith)
            requires
                0 <= pl <= 1,
                t >= 1,
        ;
    } else {
        let d1 = (d - 1) as nat;
        lemma_rounds_count(ents, es, n, os, d1, dd);
        let c = rounds(ents, es, n, os, d1).0;
        let p = rounds(ents, es, n, os, d1).1;
        if p.len() == 0 {
            assert(rounds(ents, es, n, os, d) == rounds(ents, es, n, os, d1));
            assert(p.len() * two_to((dd - d) as nat) == 0);
        } else {
            assert(rounds(ents, es, n, os, d) == (c + round(ents, es, p, os[d - 1]).0, round(ents, es, p, os[d - 1]).1));
            lemma_round_size(ents, es, p, os[d - 1]);
            let l = round(ents, es, p, os[d - 1]).0;
            let nx = round(ents, es, p, os[d - 1]).1;
            let q = two_to((dd - d) as nat);
            lemma_two_to_pos((dd - d) as nat);
            assert(two_to((dd - d1) as nat) == 2 * q);
            let (cl, ll, nl, pl) = (c.len() as int, l.len() as int, nx.len() as int, p.len() as int);
            assert(cl + ll + nl * q <= two_to(dd)) by (nonlinear_arith)
                requires
                    cl + pl * (2 * q) <= two_to(dd),
                    2 * ll + nl <= 2 * pl,
                    q >= 1,
                    ll >= 0,
                    nl >= 0,
            {
                assert(ll <= 2 * ll * q);
                assert(ll + nl * q <= (2 * ll + nl) * q);
                assert((2 * ll + nl) * q <= 2 * pl * q);
            }
        }
    }
}

/// A graph of fewer than four entities is never split: whatever the
/// answers and however many rounds run, its entities form one community.
pub proof fn lemma_small_graph_stays_whole(ents: Seq<EntityView>, es: Seq<EdgeView>, n: int, os: Seq<Seq<bool>>, d: nat)
    requires
        1 <= n < 4,
    ensures
        bisection(ents, es, n, os, d) == seq![index_range(n)],
{
    let whole = seq![index_range(n)];
    assert(rounds(ents, es, n, os, 0) == (Seq::<Seq<usize>>::empty(), whole));
    if d > 0 {
        assert(whole.drop_last() =~= Seq::<Seq<usize>>::empty());
        assert(round(ents, es, whole.drop_last(), os[0]) == (Seq::<Seq<usize>>::empty(), Seq::<Seq<usize>>::empty()));
        assert(round(ents, es, whole, os[0]) == (Seq::<Seq<usize>>::empty().push(index_range(n)), Seq::<
            Seq<usize>,
        >::empty()));
        assert(rounds(ents, es, n, os, 1) == (Seq::<Seq<usize>>::empty() + whole, Seq::<Seq<usize>>::empty()));
        lemma_rounds_closed(ents, es, n, os, 1, d);
        assert(bisection(ents, es, n, os, d) =~= whole);
    } else {
        assert(bisection(ents, es, n, os, d) =~= whole);
    }
}

/// Whether the communities `r` list, by label, the entities of the parts `b`
/// (entity indices), part by part and in order.
pub open spec fn labelled_as(ents: Seq<EntityView>, r: Seq<Vec<String>>, b: Seq<Seq<usize>>) -> bool {
    &&& r.len() == b.len()
    &&& forall|c: int|
        0 <= c < r.len() ==> (#[trigger] r[c])@.len() == b[c].len() && forall|k: int|
            0 <= k < b[c].len() ==> #[trigger] r[c]@[k]@ == label(ents[b[c][k] as int])
}

/// Detect natural clusters in the dependency graph by repeatedly cutting
/// along the Fiedler vector (spectral bisection), at most `max_depth` rounds.
///
/// The result is the [`bisection`] of the graph in `max_depth` rounds, for
/// answers that `spectral_gap` gives on the parts it is asked about, each
/// community listed by the labels of its entities. `spectral_gap` is asked
/// only about parts of four or more entities; it answers whether the solver
/// found a spectral gap (at least two eigenvalues, the second of them at
/// least `1e-10`). A part with fewer than four entities, one without a gap,
/// and one whose Fiedler cut leaves a side empty become communities; every
/// other part is split in two by [`CodeGraph::fiedler_split`]. Parts still
/// open after the last round become communities too. Every entity lies in
/// exactly one community, and there are at most `2^max_depth` of them.
pub fn detect_communities<F: Fn(&Vec<usize>) -> bool>(graph: &CodeGraph, max_depth: usize, spectral_gap: F) -> (r: Vec<Vec<String>>)
    requires
        graph.wf(),
        graph.size_ok(),
        forall|p: &Vec<usize>| #[trigger] spectral_gap.requires((p,)),
    ensures
        graph.ents().len() == 0 ==> r@.len() == 0,
        forall|c: int| 0 <= c < r@.len() ==> #[trigger] r@[c]@.len() > 0,
        forall|c: int, k: int|
            0 <= c < r@.len() && 0 <= k < r@[c]@.len() ==> labels_entity(graph.ents(), #[trigger] r@[c]@[k]@),
        forall|i: int| 0 <= i < graph.ents().len() ==> listed_in(r@, label(#[trigger] graph.ents()[i])),
        forall|c1: int, k1: int, c2: int, k2: int|
            0 <= c1 < r@.len() && 0 <= k1 < r@[c1]@.len() && 0 <= c2 < r@.len() && 0 <= k2
                < r@[c2]@.len() && (c1, k1) != (c2, k2) ==> #[trigger] r@[c1]@[k1]@ != #[trigger] r@[c2]@[k2]@,
        exists|os: Seq<Seq<bool>>|
            #[trigger] answers_ok(spectral_gap, graph.ents(), graph.edge_views(), graph.ents().len() as int, os, max_depth as nat)
                && labelled_as(
                graph.ents(),
                r@,
                bisection(graph.ents(), graph.edge_views(), graph.ents().len() as int, os, max_depth as nat),
            ),
        r@.len() <= two_to(max_depth as nat),
{
    let parts = community_parts(graph, max_depth, &spectral_gap);
    let _len = graph.entities.len();
    let ghost ents = graph.ents();
    let ghost n = ents.len() as int;
    assert(n == graph.entities@.len());
    let mut r: Vec<Vec<String>> = Vec::new();
    proof {
        assert forall|cc: int, k: int|
            0 <= cc < parts@.len() && 0 <= k < parts@[cc]@.len() implies #[trigger] parts@[cc]@[k] < n by {
            lemma_parts_mset_count(parts@, cc, k, cc, k);
            lemma_index_range_count(n, parts@[cc]@[k]);
        }
    }
    let mut c: usize = 0;
    while c < parts.len()
        invariant
            graph.wf(),
            ents == graph.ents(),
            n == ents.len(),
            c <= parts@.len(),
            r@.len() == c,
            forall|cc: int| 0 <= cc < parts@.len() ==> #[trigger] parts@[cc]@.len() > 0,
            forall|cc: int, k: int|
                0 <= cc < parts@.len() && 0 <= k < parts@[cc]@.len() ==> #[trigger] parts@[cc]@[k] < n,
            forall|cc: int|
                0 <= cc < c ==> (#[trigger] r@[cc])@.len() == parts@[cc]@.len() && forall|k: int|
                    0 <= k < r@[cc]@.len() ==> #[trigger] r@[cc]@[k]@ == label(ents[parts@[cc]@[k] as int]),
        decreases parts@.len() - c,
    {
        let part = &parts[c];
        let mut labels: Vec<String> = Vec::new();
        let mut k: usize = 0;
        while k < part.len()
            invariant
                graph.wf(),
                ents == graph.ents(),
                n == ents.len(),
                c < parts@.len(),
                *part == parts@[c as int],
                k <= part@.len(),
                forall|kk: int| 0 <= kk < part@.len() ==> #[trigger] part@[kk] < n,
                labels@.len() == k,
                forall|kk: int| 0 <= kk < k ==> #[trigger] labels@[kk]@ == label(ents[part@[kk] as int]),
            decreases part@.len() - k,
        {
            let g = part[k];
            assert(ents[g as int] == graph.entities@[g as int]@);
            labels.push(graph.entities[g].label());
            k = k + 1;
        }
        r.push(labels);
        c = c + 1;
    }
    proof {
        lemma_label_partition(graph.ents(), parts@, r@);
        let es = graph.edge_views();
        let dd = max_depth as nat;
        let os = choose|os: Seq<Seq<bool>>|
            #[trigger] answers_ok(spectral_gap, ents, es, n, os, dd) && part_views(parts@) == bisection(ents, es, n, os, dd);
        let b = bisection(ents, es, n, os, dd);
        assert forall|cc: int| 0 <= cc < r@.len() implies (#[trigger] r@[cc])@.len() == b[cc].len() && forall|k: int|
            0 <= k < b[cc].len() ==> #[trigger] r@[cc]@[k]@ == label(ents[b[cc][k] as int]) by {
            assert(part_views(parts@)[cc] == parts@[cc]@);
        }
        assert(labelled_as(ents, r@, b));
    }
    r
}

/// `part_views` of a sequence with one more part.
proof fn lemma_part_views_push(s: Seq<Vec<usize>>, p: Vec<usize>)
    ensures
        part_views(s.push(p)) == part_views(s).push(p@),
{
    assert(part_views(s.push(p)) =~= part_views(s).push(p@));
}

/// One more part examined in a round: the round over the first `k + 1`
/// parts, with one more answer, extends the round over the first `k`.
proof fn lemma_round_step(ents: Seq<EntityView>, es: Seq<EdgeView>, ps: Seq<Seq<usize>>, gs: Seq<bool>, k: int, g: bool)
    requires
        0 <= k < ps.len(),
        gs.len() == k,
    ensures
        ({
            let (l, nx) = round(ents, es, ps.take(k), gs);
            let p = ps[k];
            let a = p.filter(on_side_a(ents, es, p));
            let b = p.filter(on_side_b(ents, es, p));
            round(ents, es, ps.take(k + 1), gs.push(g)) == if p.len() < 4 || !g || a.len() == 0 || b.len() == 0 {
                (l.push(p), nx)
            } else {
                (l, nx.push(a).push(b))
            }
        }),
{
    assert(ps.take(k + 1).drop_last() =~= ps.take(k));
    lemma_round_answers(ents, es, ps.take(k), gs.push(g), gs);
}

/// The parts found by repeated spectral bisection, as entity indices: the
/// communities of [`bisection`] for some answers that `spectral_gap` gives.
fn community_parts<F: Fn(&Vec<usize>) -> bool>(graph: &CodeGraph, max_depth: usize, spectral_gap: &F) -> (r: Vec<Vec<usize>>)
    requires
        graph.wf(),
        graph.size_ok(),
        forall|p: &Vec<usize>| #[trigger] spectral_gap.requires((p,)),
    ensures
        graph.ents().len() == 0 ==> r@.len() == 0,
        parts_mset(r@) == index_range(graph.ents().len() as int).to_multiset(),
        forall|c: int| 0 <= c < r@.len() ==> #[trigger] r@[c]@.len() > 0,
        exists|os: Seq<Seq<bool>>|
            #[trigger] answers_ok(*spectral_gap, graph.ents(), graph.edge_views(), graph.ents().len() as int, os, max_depth as nat)
                && part_views(r@) == bisection(
                graph.ents(),
                graph.edge_views(),
                graph.ents().len() as int,
                os,
                max_depth as nat,
            ),
        r@.len() <= two_to(max_depth as nat),
{
    broadcast use vstd::seq_lib::group_to_multiset_ensures, vstd::multiset::group_multiset_axioms;

    let ghost ents = graph.ents();
    let ghost es = graph.edge_views();
    let ghost n = graph.ents().len() as int;
    let ghost dd = max_depth as nat;
    let ghost target = index_range(n).to_multiset();
    assert(n == graph.entities@.len());
    let mut communities: Vec<Vec<usize>> = Vec::new();
    if graph.is_empty() {
        assert(parts_mset(communities@) =~= target);
        proof {
            let os = Seq::<Seq<bool>>::empty();
            assert(rounds(ents, es, n, os, 0).1.len() == 0);
            lemma_rounds_closed(ents, es, n, os, 0, dd);
            assert forall|j: int, k: int|
                #![trigger rounds(ents, es, n, os, j as nat).1[k]]
                0 <= j < dd && 0 <= k < rounds(ents, es, n, os, j as nat).1.len() implies false by {
                lemma_rounds_closed(ents, es, n, os, 0, j as nat);
            }
            assert(answers_ok(*spectral_gap, ents, es, n, os, dd));
            assert(part_views(communities@) =~= bisection(ents, es, n, os, dd));
        }
        return communities;
    }
    let mut all: Vec<usize> = Vec::new();
    let mut i: usize = 0;
    while i < graph.len()
        invariant
            n == graph.ents().len(),
            i <= n,
            all@ == index_range(i as int),
        decreases n - i,
    {
        all.push(i);
        i = i + 1;
        assert(all@ =~= index_range(i as int));
    }
    let mut partitions: Vec<Vec<usize>> = Vec::new();
    partitions.push(all);
    let ghost mut os: Seq<Seq<bool>> = Seq::empty();
    proof {
        lemma_parts_mset_push(Seq::empty(), partitions@[0]);
        assert(parts_mset(Seq::<Vec<usize>>::empty()) =~= Multiset::empty());
        assert(Seq::<Vec<usize>>::empty().push(partitions@[0]) =~= partitions@);
        assert(parts_mset(communities@) =~= Multiset::empty());
        assert(parts_mset(communities@).add(parts_mset(partitions@)) =~= target);
        assert(part_views(communities@) =~= rounds(ents, es, n, os, 0).0);
        assert(part_views(partitions@) =~= rounds(ents, es, n, os, 0).1);
    }
    let mut depth: usize = 0;
    while depth < max_depth && partitions.len() > 0
        invariant
            graph.wf(),
            graph.size_ok(),
            forall|p: &Vec<usize>| #[trigger] spectral_gap.requires((p,)),
            ents == graph.ents(),
            es == graph.edge_views(),
            n == ents.len(),
            n >= 1,
            n <= usize::MAX,
            dd == max_depth,
            depth <= max_depth,
            os.len() == depth,
            target == index_range(n).to_multiset(),
            parts_mset(communities@).add(parts_mset(partitions@)) == target,
            forall|c: int| 0 <= c < communities@.len() ==> #[trigger] communities@[c]@.len() > 0,
            forall|c: int| 0 <= c < partitions@.len() ==> #[trigger] partitions@[c]@.len() > 0,
            part_views(communities@) == rounds(ents, es, n, os, depth as nat).0,
            part_views(partitions@) == rounds(ents, es, n, os, depth as nat).1,
            answers_ok(*spectral_gap, ents, es, n, os, depth as nat),
        decreases max_depth - depth,
    {
        let ghost c0 = parts_mset(communities@);
        let ghost cv0 = part_views(communities@);
        let ghost pv = part_views(partitions@);
        let ghost mut gs: Seq<bool> = Seq::empty();
        let mut next: Vec<Vec<usize>> = Vec::new();
        let mut idx: usize = 0;
        proof {
            assert(pv.take(0) =~= Seq::<Seq<usize>>::empty());
            assert(part_views(next@) =~= Seq::<Seq<usize>>::empty());
            assert(cv0 + round(ents, es, pv.take(0), gs).0 =~= cv0);
        }
        while idx < partitions.len()
            invariant
                graph.wf(),
                graph.size_ok(),
                forall|p: &Vec<usize>| #[trigger] spectral_gap.requires((p,)),
                ents == graph.ents(),
                es == graph.edge_views(),
                n == ents.len(),
                n <= usize::MAX,
                target == index_range(n).to_multiset(),
                c0.add(parts_mset(partitions@)) == target,
                idx <= partitions@.len(),
                parts_mset(communities@).add(parts_mset(next@)) == c0.add(parts_mset(partitions@.take(idx as int))),
                forall|c: int| 0 <= c < communities@.len() ==> #[trigger] communities@[c]@.len() > 0,
                forall|c: int| 0 <= c < partitions@.len() ==> #[trigger] partitions@[c]@.len() > 0,
                forall|c: int| 0 <= c < next@.len() ==> #[trigger] next@[c]@.len() > 0,
                pv == part_views(partitions@),
                gs.len() == idx,
                part_views(communities@) == cv0 + round(ents, es, pv.take(idx as int), gs).0,
                part_views(next@) == round(ents, es, pv.take(idx as int), gs).1,
                forall|k: int|
                    0 <= k < idx && (#[trigger] pv[k]).len() >= 4 ==> exists|v: &Vec<usize>|
                        v@ == pv[k] && spectral_gap.ensures((v,), gs[k]),
            decreases partitions@.len() - idx,
        {
            let part = &partitions[idx];
            let ghost take0 = partitions@.take(idx as int);
            proof {
                assert(partitions@.take(idx + 1) =~= take0.push(*part));
                lemma_parts_mset_push(take0, *part);
                assert(partitions@[idx as int]@.len() > 0);
                assert(pv[idx as int] == part@);
            }
            let ghost comm0 = communities@;
            let ghost next0 = next@;
            let ghost gs0 = gs;
            let gap = if part.len() < 4 {
                false
            } else {
                spectral_gap(part)
            };
            proof {
                gs = gs.push(gap);
                lemma_round_step(ents, es, pv, gs0, idx as int, gap);
                assert forall|k: int|
                    0 <= k < idx + 1 && (#[trigger] pv[k]).len() >= 4 implies exists|v: &Vec<usize>|
                        v@ == pv[k] && spectral_gap.ensures((v,), gs[k]) by {
                    if k < idx {
                        assert(gs[k] == gs0[k]);
                    } else {
                        assert(part@ == pv[k] && spectral_gap.ensures((part,), gs[k]));
                    }
                }
            }
            if part.len() < 4 || !gap {
                let cp = copy_part(part);
                communities.push(cp);
                proof {
                    lemma_step_leaf(comm0, next0, c0, take0, *part, cp);
                    lemma_part_views_push(comm0, cp);
                    assert(part_views(communities@) =~= cv0 + round(ents, es, pv.take(idx + 1), gs).0);
                }
            } else {
                proof {
                    assert(parts_mset(partitions@).add(c0) =~= target);
                    lemma_part_valid(partitions@, c0, idx as int, n);
                }
                let (a, b) = graph.fiedler_split(part);
                if a.len() == 0 || b.len() == 0 {
                    let cp = copy_part(part);
                    communities.push(cp);
                    proof {
                        lemma_step_leaf(comm0, next0, c0, take0, *part, cp);
                        lemma_part_views_push(comm0, cp);
                        assert(part_views(communities@) =~= cv0 + round(ents, es, pv.take(idx + 1), gs).0);
                    }
                } else {
                    proof {
                        lemma_step_split(comm0, next0, c0, take0, *part, a, b);
                    }
                    next.push(a);
                    proof {
                        lemma_part_views_push(next0, a);
                    }
                    let ghost next1 = next@;
                    next.push(b);
                    proof {
                        lemma_part_views_push(next1, b);
                    }
                }
            }
            idx = idx + 1;
        }
        proof {
            assert(partitions@.take(partitions@.len() as int) =~= partitions@);
            assert(pv.take(pv.len() as int) =~= pv);
            let os1 = os.push(gs);
            let d = depth as nat;
            lemma_rounds_answers(ents, es, n, os, os1, d);
            assert(rounds(ents, es, n, os1, d + 1) == (cv0 + round(ents, es, pv, gs).0, round(ents, es, pv, gs).1));
            assert forall|j: int, k: int|
                #![trigger rounds(ents, es, n, os1, j as nat).1[k]]
                0 <= j < d + 1 && 0 <= k < rounds(ents, es, n, os1, j as nat).1.len() && rounds(
                    ents,
                    es,
                    n,
                    os1,
                    j as nat,
                ).1[k].len() >= 4 implies exists|v: &Vec<usize>|
                    v@ == rounds(ents, es, n, os1, j as nat).1[k] && spectral_gap.ensures((v,), os1[j][k]) by {
                lemma_rounds_answers(ents, es, n, os, os1, j as nat);
                if j < d {
                    assert(os1[j] == os[j]);
                    assert(rounds(ents, es, n, os, j as nat).1[k] == rounds(ents, es, n, os1, j as nat).1[k]);
                } else {
                    assert(os1[j] == gs);
                    assert(pv[k] == rounds(ents, es, n, os1, j as nat).1[k]);
                }
            }
            os = os1;
        }
        partitions = next;
        depth = depth + 1;
    }
    let mut idx: usize = 0;
    let ghost c1 = parts_mset(communities@);
    let ghost cv1 = part_views(communities@);
    let ghost pv1 = part_views(partitions@);
    proof {
        assert(cv1 + pv1.take(0) =~= cv1);
    }
    while idx < partitions.len()
        invariant
            target == index_range(n).to_multiset(),
            c1.add(parts_mset(partitions@)) == target,
            idx <= partitions@.len(),
            parts_mset(communities@) == c1.add(parts_mset(partitions@.take(idx as int))),
            forall|c: int| 0 <= c < communities@.len() ==> #[trigger] communities@[c]@.len() > 0,
            forall|c: int| 0 <= c < partitions@.len() ==> #[trigger] partitions@[c]@.len() > 0,
            pv1 == part_views(partitions@),
            part_views(communities@) == cv1 + pv1.take(idx as int),
        decreases partitions@.len() - idx,
    {
        let ghost take0 = partitions@.take(idx as int);
        let ghost cm = communities@;
        proof {
            assert(partitions@.take(idx + 1) =~= take0.push(partitions@[idx as int]));
            lemma_parts_mset_push(take0, partitions@[idx as int]);
        }
        communities.push(copy_part(&partitions[idx]));
        proof {
            lemma_parts_mset_push(cm, communities@[cm.len() as int]);
            lemma_part_views_push(cm, communities@[cm.len() as int]);
            assert(cv1 + pv1.take(idx + 1) =~= (cv1 + pv1.take(idx as int)).push(pv1[idx as int]));
        }
        idx = idx + 1;
    }
    proof {
        assert(partitions@.take(partitions@.len() as int) =~= partitions@);
        assert(pv1.take(pv1.len() as int) =~= pv1);
        let d = depth as nat;
        if d < dd {
            lemma_rounds_closed(ents, es, n, os, d, dd);
            assert forall|j: int, k: int|
                #![trigger rounds(ents, es, n, os, j as nat).1[k]]
                0 <= j < dd && 0 <= k < rounds(ents, es, n, os, j as nat).1.len() && rounds(
                    ents,
                    es,
                    n,
                    os,
                    j as nat,
                ).1[k].len() >= 4 implies exists|v: &Vec<usize>|
                    v@ == rounds(ents, es, n, os, j as nat).1[k] && spectral_gap.ensures((v,), os[j][k]) by {
                if j >= d {
                    lemma_rounds_closed(ents, es, n, os, d, j as nat);
                }
            }
        }
        assert(answers_ok(*spectral_gap, ents, es, n, os, dd));
        assert(part_views(communities@) == bisection(ents, es, n, os, dd));
        lemma_rounds_count(ents, es, n, os, dd, dd);
        assert(two_to((dd - dd) as nat) == 1);
        let rc = rounds(ents, es, n, os, dd);
        let (x0, x1, t) = (rc.0.len() as int, rc.1.len() as int, two_to(dd) as int);
        assert(x0 + x1 <= t) by (nonlinear_arith)
            requires
                x0 + x1 * 1 <= t,
        ;
        assert(part_views(communities@).len() == bisection(ents, es, n, os, dd).len());
    }
    communities
}

// ---------------------------------------------------------------------------
// Building a graph from file-level dependency data
// ---------------------------------------------------------------------------

/// The entities a graph holds after adding the edges `es`, in order, to a
/// graph holding `s`.
pub open spec fn ents_after(s: Seq<EntityView>, es: Seq<EdgeView>) -> Seq<EntityView>
    decreases es.len(),
{
    if es.len() == 0 {
        s
    } else {
        with_edge(ents_after(s, es.drop_last()), es.last())
    }
}

/// The import edges from a file to each of its dependencies, in order.
pub open spec fn entry_edges(entry: (String, Vec<String>)) -> Seq<EdgeView> {
    entry.1@.map_values(
        |d: String|
            EdgeView {
                from: EntityView::File(entry.0@),
                to: EntityView::File(d@),
                weight: DependencyWeight::Import,
            },
    )
}

/// The import edges of a list of files and their dependencies, in order.
pub open spec fn dependency_edges(deps: Seq<(String, Vec<String>)>) -> Seq<EdgeView>
    decreases deps.len(),
{
    if deps.len() == 0 {
        Seq::empty()
    } else {
        dependency_edges(deps.drop_last()) + entry_edges(deps.last())
    }
}

/// The edge from file `f` to file `d` that a file-level dependency gives: an
/// import.
pub open spec fn file_import(f: Seq<char>, d: Seq<char>) -> EdgeView {
    EdgeView { from: EntityView::File(f), to: EntityView::File(d), weight: DependencyWeight::Import }
}

/// The edges of file-level dependency lists are exactly their imports: every
/// edge is an import from a listed file to one of its dependencies, and every
/// dependency of every listed file gives such an edge.
pub proof fn lemma_dependency_edges_are_imports(deps: Seq<(String, Vec<String>)>)
    ensures
        forall|k: int|
            0 <= k < dependency_edges(deps).len() ==> (#[trigger] dependency_edges(deps)[k]).weight
                == DependencyWeight::Import,
        forall|k: int|
            0 <= k < dependency_edges(deps).len() ==> exists|i: int, j: int|
                0 <= i < deps.len() && 0 <= j < deps[i].1@.len() && #[trigger] dependency_edges(deps)[k]
                    == file_import(deps[i].0@, deps[i].1@[j]@),
        forall|i: int, j: int|
            0 <= i < deps.len() && 0 <= j < deps[i].1@.len() ==> dependency_edges(deps).contains(
                #[trigger] file_import(deps[i].0@, deps[i].1@[j]@),
            ),
    decreases deps.len(),
{
    if deps.len() > 0 {
        let pre = deps.drop_last();
        let last = deps.last();
        lemma_dependency_edges_are_imports(pre);
        let a = dependency_edges(pre);
        let b = entry_edges(last);
        assert(dependency_edges(deps) == a + b);
        assert forall|k: int| 0 <= k < dependency_edges(deps).len() implies (#[trigger] dependency_edges(deps)[k]).weight
            == DependencyWeight::Import && exists|i: int, j: int|
            0 <= i < deps.len() && 0 <= j < deps[i].1@.len() && dependency_edges(deps)[k] == file_import(
                deps[i].0@,
                deps[i].1@[j]@,
            ) by {
            if k < a.len() {
                assert(dependency_edges(deps)[k] == a[k]);
                let (i, j) = choose|i: int, j: int|
                    0 <= i < pre.len() && 0 <= j < pre[i].1@.len() && #[trigger] a[k] == file_import(
                        pre[i].0@,
                        pre[i].1@[j]@,
                    );
                assert(pre[i] == deps[i]);
            } else {
                let j = k - a.len();
                assert(dependency_edges(deps)[k] == b[j]);
                assert(b[j] == file_import(last.0@, last.1@[j]@));
                assert(deps[deps.len() - 1] == last);
            }
        }
        assert forall|i: int, j: int| 0 <= i < deps.len() && 0 <= j < deps[i].1@.len() implies dependency_edges(
            deps,
        ).contains(#[trigger] file_import(deps[i].0@, deps[i].1@[j]@)) by {
            if i < deps.len() - 1 {
                assert(pre[i] == deps[i]);
                assert(a.contains(file_import(pre[i].0@, pre[i].1@[j]@)));
                let k = choose|k: int| 0 <= k < a.len() && a[k] == file_import(pre[i].0@, pre[i].1@[j]@);
                assert(dependency_edges(deps)[k] == a[k]);
            } else {
                assert(deps[i] == last);
                assert(b[j] == file_import(last.0@, last.1@[j]@));
                assert(dependency_edges(deps)[a.len() + j] == b[j]);
            }
        }
    }
}

/// The dependency graph of a set of files: for each file path (in the given
/// order) and each path it depends on, an import edge between the two files.
pub fn file_dependency_graph(file_deps: &Vec<(String, Vec<String>)>) -> (g: CodeGraph)
    ensures
        g.wf(),
        g.edge_views() == dependency_edges(file_deps@),
        g.ents() == ents_after(Seq::empty(), dependency_edges(file_deps@)),
        forall|k: int| 0 <= k < g.edge_views().len() ==> (#[trigger] g.edge_views()[k]).weight == DependencyWeight::Import,
        forall|k: int|
            0 <= k < g.edge_views().len() ==> exists|i: int, j: int|
                0 <= i < file_deps@.len() && 0 <= j < file_deps@[i].1@.len() && #[trigger] g.edge_views()[k]
                    == file_import(file_deps@[i].0@, file_deps@[i].1@[j]@),
        forall|i: int, j: int|
            0 <= i < file_deps@.len() && 0 <= j < file_deps@[i].1@.len() ==> g.edge_views().contains(
                #[trigger] file_import(file_deps@[i].0@, file_deps@[i].1@[j]@),
            ),
{
    let mut g = CodeGraph::new();
    let mut e: usize = 0;
    while e < file_deps.len()
        invariant
            e <= file_deps@.len(),
            g.wf(),
            g.edge_views() == dependency_edges(file_deps@.take(e as int)),
            g.ents() == ents_after(Seq::empty(), g.edge_views()),
        decreases file_deps@.len() - e,
    {
        let entry = &file_deps[e];
        let ghost base = g.edge_views();
        let mut j: usize = 0;
        while j < entry.1.len()
            invariant
                e < file_deps@.len(),
                *entry == file_deps@[e as int],
                j <= entry.1@.len(),
                g.wf(),
                base == dependency_edges(file_deps@.take(e as int)),
                g.edge_views() == base + entry_edges(*entry).take(j as int),
                g.ents() == ents_after(Seq::empty(), g.edge_views()),
            decreases entry.1@.len() - j,
        {
            let edge = DependencyEdge {
                from: Entity::File(entry.0.clone()),
                to: Entity::File(entry.1[j].clone()),
                weight: DependencyWeight::Import,
            };
            let ghost before = g.edge_views();
            g.add_edge(edge);
            proof {
                assert(entry_edges(*entry).take(j + 1) =~= entry_edges(*entry).take(j as int).push(
                    entry_edges(*entry)[j as int],
                ));
                assert(g.edge_views() =~= base + entry_edges(*entry).take(j + 1));
                assert(g.edge_views().drop_last() =~= before);
            }
            j = j + 1;
        }
        proof {
            assert(entry_edges(*entry).take(entry.1@.len() as int) =~= entry_edges(*entry));
            assert(file_deps@.take(e + 1).drop_last() =~= file_deps@.take(e as int));
        }
        e = e + 1;
    }
    proof {
        assert(file_deps@.take(file_deps@.len() as int) =~= file_deps@);
        lemma_dependency_edges_are_imports(file_deps@);
    }
    g
}

/// The position of the pair `(a, b)` in `r`, if it is there.
fn find_pair(r: &Vec<PairWeight>, a: usize, b: usize) -> (res: Option<usize>)
    ensures
        match res {
            Some(t) => t < r@.len() && r@[t as int].i == a && r@[t as int].j == b,
            None => forall|u: int| 0 <= u < r@.len() ==> (#[trigger] r@[u].i, r@[u].j) != (a, b),
        },
{
    let mut t: usize = 0;
    while t < r.len()
        invariant
            t <= r@.len(),
            forall|u: int| 0 <= u < t ==> (#[trigger] r@[u].i, r@[u].j) != (a, b),
        decreases r@.len() - t,
    {
        if r[t].i == a && r[t].j == b {
            return Some(t);
        }
        t = t + 1;
    }
    None
}

/// The position of `x` in `part`, if it is there.
pub fn find_index(part: &Vec<usize>, x: usize) -> (r: Option<usize>)
    ensures
        match r {
            Some(l) => l < part@.len() && part@[l as int] == x,
            None => !part@.contains(x),
        },
{
    let mut l: usize = 0;
    while l < part.len()
        invariant
            l <= part@.len(),
            forall|m: int| 0 <= m < l ==> part@[m] != x,
        decreases part@.len() - l,
    {
        if part[l] == x {
            return Some(l);
        }
        l = l + 1;
    }
    None
}

} // verus!
