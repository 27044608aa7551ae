//! Code structure mapped to the Eisenstein hexagonal lattice.
//!
//! Functions are nodes placed on lattice positions; calls become directed
//! edges; modules become cells with a center on the lattice. Import coupling
//! is measured as lattice distance.
//!
//! Modules get their centers from the hexagonal ring spiral. A function is
//! placed where the caller asks, if that position is free, and otherwise at
//! the first free position near its module's center. No two functions ever
//! share a position.
use vstd::prelude::*;

use crate::lattice::{
    abs, disk_cells, distance_between, distance_defined, hex_disk, hex_distance, hex_sum, i32_max,
    index_to_hex_spiral, lattice_add, lattice_dist, lemma_disk_cell_bound, lemma_spiral_bound,
    lemma_spiral_injective,
    max_disk_radius, pos, pos_dist, ring_end, spiral,
};
use crate::spectral_analysis::{index_in, lemma_index_in};
use crate::{FileId, FunctionId, LatticePos};

verus! {

/// What a [`FunctionId`] denotes: its file and its name.
pub type FnKey = (Seq<char>, Seq<char>);

/// The keys of a sequence of function identifiers.
pub open spec fn keys(v: Seq<FunctionId>) -> Seq<FnKey> {
    v.map_values(|f: FunctionId| f@)
}

/// The paths of a sequence of file identifiers.
pub open spec fn paths(v: Seq<FileId>) -> Seq<Seq<char>> {
    v.map_values(|f: FileId| f@)
}

/// A function node on the Eisenstein lattice.
#[derive(Debug)]
pub struct FunctionNode {
    /// Unique identifier.
    pub id: FunctionId,
    /// Position on the Eisenstein lattice.
    pub pos: LatticePos,
    /// Functions this function calls.
    pub calls: Vec<FunctionId>,
    /// Functions that call this function.
    pub called_by: Vec<FunctionId>,
    /// Estimated cognitive complexity (cyclomatic + nesting).
    pub complexity: u32,
    /// Lines of code.
    pub lines_of_code: u32,
}

/// What a [`FunctionNode`] denotes.
pub struct NodeView {
    pub id: FnKey,
    pub pos: LatticePos,
    pub calls: Seq<FnKey>,
    pub called_by: Seq<FnKey>,
    pub complexity: u32,
    pub lines_of_code: u32,
}

impl View for FunctionNode {
    type V = NodeView;

    open spec fn view(&self) -> NodeView {
        NodeView {
            id: self.id@,
            pos: self.pos,
            calls: keys(self.calls@),
            called_by: keys(self.called_by@),
            complexity: self.complexity,
            lines_of_code: self.lines_of_code,
        }
    }
}

/// A module (file) containing one or more functions.
#[derive(Debug)]
pub struct ModuleCell {
    /// File path (e.g., "crates/spatial/src/lib.rs").
    pub file: FileId,
    /// Functions contained in this module.
    pub functions: Vec<FunctionId>,
    /// Cell center on the lattice.
    pub center: LatticePos,
    /// Modules that this module imports from.
    pub imports: Vec<FileId>,
    /// Modules that import from this module.
    pub imported_by: Vec<FileId>,
}

/// What a [`ModuleCell`] denotes.
pub struct ModuleView {
    pub file: Seq<char>,
    pub functions: Seq<FnKey>,
    pub center: LatticePos,
    pub imports: Seq<Seq<char>>,
    pub imported_by: Seq<Seq<char>>,
}

impl View for ModuleCell {
    type V = ModuleView;

    open spec fn view(&self) -> ModuleView {
        ModuleView {
            file: self.file@,
            functions: keys(self.functions@),
            center: self.center,
            imports: paths(self.imports@),
            imported_by: paths(self.imported_by@),
        }
    }
}

/// How far a module center may lie from the origin in either coordinate, so
/// that every placement candidate around it stays an `i32`.
pub open spec fn center_bound() -> int {
    0x4000_0000
}

/// Whether a lattice position may serve as a module center.
pub open spec fn center_ok(p: LatticePos) -> bool {
    abs(p.a as int) <= center_bound() && abs(p.b as int) <= center_bound()
}

/// How many spiral positions a graph may hand out.
pub open spec fn counter_max() -> int {
    0x100_0000_0000
}

/// The lattice position of spiral index `n`.
pub open spec fn spiral_pos(n: int) -> LatticePos {
    pos(spiral(n).0, spiral(n).1)
}

/// A fresh module cell for `file`, centered at `center`.
pub open spec fn fresh_module(file: Seq<char>, center: LatticePos) -> ModuleView {
    ModuleView {
        file,
        functions: Seq::empty(),
        center,
        imports: Seq::empty(),
        imported_by: Seq::empty(),
    }
}

// ---------------------------------------------------------------------------
// Where a new function is placed
// ---------------------------------------------------------------------------

/// The cells shifted so that the origin lands on `center`.
pub open spec fn shifted(center: LatticePos, cells: Seq<LatticePos>) -> Seq<LatticePos> {
    cells.map_values(|c: LatticePos| pos(center.a + c.a, center.b + c.b))
}

/// Whether `t` is the first index of `cands` whose position no function occupies.
pub open spec fn is_first_free(taken: Seq<LatticePos>, cands: Seq<LatticePos>, t: int) -> bool {
    &&& 0 <= t < cands.len()
    &&& !taken.contains(cands[t])
    &&& forall|u: int| 0 <= u < t ==> taken.contains(#[trigger] cands[u])
}

/// Whether some position of `cands` is free.
pub open spec fn has_free(taken: Seq<LatticePos>, cands: Seq<LatticePos>) -> bool {
    exists|t: int| is_first_free(taken, cands, t)
}

/// The first free position of `cands`.
pub open spec fn first_free(taken: Seq<LatticePos>, cands: Seq<LatticePos>) -> int {
    choose|t: int| is_first_free(taken, cands, t)
}

/// A free candidate with every earlier candidate taken is the first free one.
pub proof fn lemma_first_free_unique(taken: Seq<LatticePos>, cands: Seq<LatticePos>, t: int)
    requires
        is_first_free(taken, cands, t),
    ensures
        has_free(taken, cands),
        first_free(taken, cands) == t,
{
    let u = first_free(taken, cands);
    assert(is_first_free(taken, cands, u));
    if u < t {
        assert(taken.contains(cands[u]));
    } else if t < u {
        assert(taken.contains(cands[t]));
    }
}

/// The search through hexagonal disks around `center`, of radius `r` up to
/// `last`: the first free position of the first disk that has one.
pub open spec fn disk_search(taken: Seq<LatticePos>, center: LatticePos, r: int, last: int) -> Option<LatticePos>
    decreases last + 1 - r,
{
    if r > last {
        None
    } else {
        let cands = shifted(center, disk_cells(r));
        if has_free(taken, cands) {
            Some(cands[first_free(taken, cands)])
        } else {
            disk_search(taken, center, r + 1, last)
        }
    }
}

/// The fallback candidates: `center`, then `center` plus each of the next
/// 999 spiral positions from index `c0` on.
pub open spec fn fallback_cands(center: LatticePos, c0: int) -> Seq<LatticePos> {
    Seq::new(
        1000,
        |t: int|
            if t == 0 {
                center
            } else {
                pos(center.a + spiral(c0 + t - 1).0, center.b + spiral(c0 + t - 1).1)
            },
    )
}

/// Where the search near `center` places a function, with the number of
/// spiral positions it uses up: the first free position of the disks of
/// radius 5 to 25 around `center`; failing that, the first free fallback
/// candidate; failing that, nothing.
pub open spec fn placement(taken: Seq<LatticePos>, center: LatticePos, c0: int) -> Option<(LatticePos, int)> {
    match disk_search(taken, center, 5, 25) {
        Some(p) => Some((p, 0)),
        None => {
            let cands = fallback_cands(center, c0);
            if has_free(taken, cands) {
                let t = first_free(taken, cands);
                Some((cands[t], t))
            } else {
                None
            }
        },
    }
}

/// Where a new function is placed: at the position asked for, if one is
/// and it is free; otherwise by the search near its module's center.
pub open spec fn choose_position(
    taken: Seq<LatticePos>,
    asked: Option<LatticePos>,
    center: LatticePos,
    c0: int,
) -> Option<(LatticePos, int)> {
    match asked {
        Some(p) if !taken.contains(p) => Some((p, 0)),
        _ => placement(taken, center, c0),
    }
}

proof fn lemma_disk_search_free(taken: Seq<LatticePos>, center: LatticePos, r: int, last: int)
    ensures
        disk_search(taken, center, r, last) matches Some(p) ==> !taken.contains(p),
    decreases last + 1 - r,
{
    if r <= last {
        let cands = shifted(center, disk_cells(r));
        if has_free(taken, cands) {
            let t = first_free(taken, cands);
            assert(is_first_free(taken, cands, t));
        } else {
            lemma_disk_search_free(taken, center, r + 1, last);
        }
    }
}

/// A position that [`choose_position`] picks is free, and the search uses
/// up fewer than 1000 spiral positions.
pub proof fn lemma_choose_position_free(taken: Seq<LatticePos>, asked: Option<LatticePos>, center: LatticePos, c0: int)
    ensures
        choose_position(taken, asked, center, c0) matches Some((p, t)) ==> !taken.contains(p) && 0 <= t < 1000,
{
    lemma_disk_search_free(taken, center, 5, 25);
    let cands = fallback_cands(center, c0);
    if has_free(taken, cands) {
        let t = first_free(taken, cands);
        assert(is_first_free(taken, cands, t));
    }
}

/// A free candidate makes some candidate the first free one.
proof fn lemma_some_free(taken: Seq<LatticePos>, cands: Seq<LatticePos>, t: int)
    requires
        0 <= t < cands.len(),
        !taken.contains(cands[t]),
    ensures
        has_free(taken, cands),
    decreases t,
{
    if forall|u: int| 0 <= u < t ==> taken.contains(#[trigger] cands[u]) {
        assert(is_first_free(taken, cands, t));
    } else {
        let u = choose|u: int| 0 <= u < t && !taken.contains(#[trigger] cands[u]);
        lemma_some_free(taken, cands, u);
    }
}

/// Around a valid center, with the spiral counter within its bound, fewer
/// than 999 taken positions always leave a fallback candidate free: the
/// candidates after the center itself are 999 distinct positions.
proof fn lemma_fallback_has_free(taken: Seq<LatticePos>, center: LatticePos, c0: int)
    requires
        taken.len() < 999,
        center_ok(center),
        0 <= c0 <= counter_max() + 1,
    ensures
        has_free(taken, fallback_cands(center, c0)),
{
    let cands = fallback_cands(center, c0);
    let tail = cands.subrange(1, 1000);
    assert(ring_end(0x20_0000) >= counter_max() + 1000) by (nonlinear_arith);
    assert forall|t: int| 0 <= t < 999 implies (#[trigger] tail[t]).a == center.a + spiral(c0 + t).0 && tail[t].b
        == center.b + spiral(c0 + t).1 by {
        lemma_spiral_bound(c0 + t, 0x20_0000);
    }
    assert(tail.no_duplicates()) by {
        assert forall|t: int, u: int| 0 <= t < u < 999 implies tail[t] != tail[u] by {
            lemma_spiral_injective(c0 + t, c0 + u);
        }
    }
    if forall|t: int| 0 <= t < 999 ==> taken.contains(#[trigger] tail[t]) {
        assert forall|y: LatticePos| tail.contains(y) implies taken.contains(y) by {
            let t = choose|t: int| 0 <= t < tail.len() && tail[t] == y;
        }
        taken.lemma_cardinality_of_set();
        assert(false) by {
            tail.unique_seq_to_set();
            assert(tail.to_set().subset_of(taken.to_set()));
            vstd::set_lib::lemma_len_subset(tail.to_set(), taken.to_set());
        }
    } else {
        let t = choose|t: int| 0 <= t < 999 && !taken.contains(#[trigger] tail[t]);
        assert(cands[t + 1] == tail[t]);
        lemma_some_free(taken, cands, t + 1);
    }
}

/// The full code graph mapped onto the Eisenstein lattice.
#[derive(Debug)]
pub struct CodeGraph {
    /// All function nodes, in registration order.
    pub functions: Vec<FunctionNode>,
    /// All module cells, in registration order.
    pub modules: Vec<ModuleCell>,
    /// Counter for sequential hex spiral allocation: how many spiral
    /// positions have been handed out.
    pub alloc_counter: u64,
}

impl CodeGraph {
    /// The function nodes, as views.
    pub open spec fn fns(&self) -> Seq<NodeView> {
        self.functions@.map_values(|n: FunctionNode| n@)
    }

    /// The module cells, as views.
    pub open spec fn mods(&self) -> Seq<ModuleView> {
        self.modules@.map_values(|m: ModuleCell| m@)
    }

    /// The keys of the registered functions, in order.
    pub open spec fn fn_keys(&self) -> Seq<FnKey> {
        self.fns().map_values(|n: NodeView| n.id)
    }

    /// The paths of the registered modules, in order.
    pub open spec fn mod_files(&self) -> Seq<Seq<char>> {
        self.mods().map_values(|m: ModuleView| m.file)
    }

    /// The positions of the registered functions, in order.
    pub open spec fn positions(&self) -> Seq<LatticePos> {
        self.fns().map_values(|n: NodeView| n.pos)
    }

    /// The number of spiral positions handed out so far.
    pub open spec fn counter(&self) -> int {
        self.alloc_counter as int
    }

    /// A well-formed graph registers each function and each module once,
    /// has a module for every function's file, never puts two functions at
    /// the same position, keeps module centers within [`center_bound`], and
    /// has handed out at most [`counter_max`] spiral positions.
    pub open spec fn wf(&self) -> bool {
        &&& self.fn_keys().no_duplicates()
        &&& self.mod_files().no_duplicates()
        &&& forall|i: int| 0 <= i < self.fns().len() ==> self.mod_files().contains(#[trigger] self.fns()[i].id.0)
        &&& forall|i: int, j: int|
            0 <= i < self.fns().len() && 0 <= j < self.fns().len() && i != j ==> #[trigger] self.fns()[i].pos
                != #[trigger] self.fns()[j].pos
        &&& forall|m: int| 0 <= m < self.mods().len() ==> center_ok(#[trigger] self.mods()[m].center)
        &&& self.counter() <= counter_max()
    }

    /// Whether every module center is a spiral position already handed out:
    /// so it is, until a center is moved.
    pub open spec fn centers_on_spiral(&self) -> bool {
        forall|m: int|
            0 <= m < self.mods().len() ==> exists|i: int|
                0 <= i < self.counter() && #[trigger] self.mods()[m].center == spiral_pos(i)
    }

    /// Create a new empty code graph.
    pub fn new() -> (g: Self)
        ensures
            g.wf(),
            g.centers_on_spiral(),
            g.fns() == Seq::<NodeView>::empty(),
            g.mods() == Seq::<ModuleView>::empty(),
            g.counter() == 0,
    {
        let g = CodeGraph { functions: Vec::new(), modules: Vec::new(), alloc_counter: 0 };
        assert(g.fns() =~= Seq::<NodeView>::empty());
        assert(g.mods() =~= Seq::<ModuleView>::empty());
        assert(g.fn_keys() =~= Seq::<FnKey>::empty());
        assert(g.mod_files() =~= Seq::<Seq<char>>::empty());
        g
    }

    /// The index of the function registered under `id`, if any.
    pub fn find_function(&self, id: &FunctionId) -> (r: Option<usize>)
        ensures
            match r {
                Some(i) => i < self.fns().len() && self.fns()[i as int].id == id@ && forall|j: int|
                    0 <= j < i ==> self.fns()[j].id != id@,
                None => !self.fn_keys().contains(id@),
            },
    {
        let mut i: usize = 0;
        while i < self.functions.len()
            invariant
                i <= self.functions@.len(),
                forall|j: int| 0 <= j < i ==> self.fns()[j].id != id@,
            decreases self.functions@.len() - i,
        {
            if self.functions[i].id == *id {
                return Some(i);
            }
            i = i + 1;
        }
        proof {
            if self.fn_keys().contains(id@) {
                let j = choose|j: int| 0 <= j < self.fn_keys().len() && self.fn_keys()[j] == id@;
                assert(self.fns()[j].id == id@);
            }
        }
        None
    }

    /// The index of the module registered for `file`, if any.
    pub fn find_module(&self, file: &FileId) -> (r: Option<usize>)
        ensures
            match r {
                Some(m) => m < self.mods().len() && self.mods()[m as int].file == file@ && forall|j: int|
                    0 <= j < m ==> self.mods()[j].file != file@,
                None => !self.mod_files().contains(file@),
            },
    {
        let mut m: usize = 0;
        while m < self.modules.len()
            invariant
                m <= self.modules@.len(),
                forall|j: int| 0 <= j < m ==> self.mods()[j].file != file@,
            decreases self.modules@.len() - m,
        {
            if self.modules[m].file == *file {
                return Some(m);
            }
            m = m + 1;
        }
        proof {
            if self.mod_files().contains(file@) {
                let j = choose|j: int| 0 <= j < self.mod_files().len() && self.mod_files()[j] == file@;
                assert(self.mods()[j].file == file@);
            }
        }
        None
    }

    /// Whether the graph is well formed (see [`CodeGraph::wf`]).
    pub fn is_well_formed(&self) -> (b: bool)
        ensures
            b == self.wf(),
    {
        let nf = self.functions.len();
        let nm = self.modules.len();
        let mut i: usize = 0;
        while i < nf
            invariant
                nf == self.fns().len(),
                nm == self.mods().len(),
                i <= nf,
                forall|p: int, q: int| 0 <= p < q < i ==> #[trigger] self.fn_keys()[p] != #[trigger] self.fn_keys()[q],
                forall|p: int| 0 <= p < i ==> self.mod_files().contains(#[trigger] self.fns()[p].id.0),
                forall|p: int, q: int| 0 <= p < q < i ==> #[trigger] self.fns()[p].pos != #[trigger] self.fns()[q].pos,
            decreases nf - i,
        {
            proof {
                assert(self.fns()[i as int] == self.functions@[i as int]@);
                assert(self.fn_keys()[i as int] == self.fns()[i as int].id);
            }
            match self.find_function(&self.functions[i].id) {
                Some(j) => {
                    if j != i {
                        proof {
                            assert(self.fn_keys()[j as int] == self.fn_keys()[i as int]);
                        }
                        return false;
                    }
                },
                None => {
                    proof {
                        assert(self.fn_keys().contains(self.fn_keys()[i as int]));
                    }
                    return false;
                },
            }
            let found = self.find_module(&self.functions[i].id.file);
            proof {
                assert(self.functions@[i as int].id.file@ == self.fns()[i as int].id.0);
            }
            match found {
                Some(mi) => {
                    proof {
                        assert(self.mod_files()[mi as int] == self.fns()[i as int].id.0);
                    }
                },
                None => {
                    proof {
                        assert(!self.mod_files().contains(self.fns()[i as int].id.0));
                    }
                    return false;
                },
            }
            let pos = self.functions[i].pos;
            let mut q: usize = 0;
            while q < i
                invariant
                    nf == self.fns().len(),
                    q <= i < nf,
                    pos == self.fns()[i as int].pos,
                    forall|r: int| 0 <= r < q ==> #[trigger] self.fns()[r].pos != pos,
                decreases i - q,
            {
                proof {
                    assert(self.fns()[q as int] == self.functions@[q as int]@);
                }
                if self.functions[q].pos == pos {
                    proof {
                        assert(self.fns()[q as int].pos == self.fns()[i as int].pos);
                    }
                    return false;
                }
                q = q + 1;
            }
            proof {
                assert forall|p: int| 0 <= p < i + 1 implies self.mod_files().contains(#[trigger] self.fns()[p].id.0) by {
                    if p == i {
                        assert(self.mod_files().contains(self.fns()[i as int].id.0));
                    }
                }
                assert forall|p: int, r: int| 0 <= p < r < i + 1 implies #[trigger] self.fn_keys()[p]
                    != #[trigger] self.fn_keys()[r] by {
                    if r == i {
                        assert(self.fn_keys()[p] == self.fns()[p].id);
                    }
                }
                assert forall|p: int, r: int| 0 <= p < r < i + 1 implies #[trigger] self.fns()[p].pos
                    != #[trigger] self.fns()[r].pos by {
                    if r == i {
                        assert(self.fns()[p].pos != pos);
                    }
                }
            }
            i = i + 1;
        }
        let mut m: usize = 0;
        while m < nm
            invariant
                nf == self.fns().len(),
                nm == self.mods().len(),
                m <= nm,
                forall|p: int, q: int| 0 <= p < q < m ==> #[trigger] self.mod_files()[p] != #[trigger] self.mod_files()[q],
                forall|p: int| 0 <= p < m ==> center_ok(#[trigger] self.mods()[p].center),
            decreases nm - m,
        {
            proof {
                assert(self.mods()[m as int] == self.modules@[m as int]@);
                assert(self.mod_files()[m as int] == self.mods()[m as int].file);
            }
            match self.find_module(&self.modules[m].file) {
                Some(j) => {
                    if j != m {
                        proof {
                            assert(self.mod_files()[j as int] == self.mod_files()[m as int]);
                        }
                        return false;
                    }
                },
                None => {
                    proof {
                        assert(self.mod_files().contains(self.mod_files()[m as int]));
                    }
                    return false;
                },
            }
            let c = self.modules[m].center;
            proof {
                assert(c == self.mods()[m as int].center);
            }
            if c.a < -0x4000_0000 || c.a > 0x4000_0000 || c.b < -0x4000_0000 || c.b > 0x4000_0000 {
                proof {
                    assert(!center_ok(self.mods()[m as int].center));
                }
                return false;
            }
            proof {
                assert forall|p: int, r: int| 0 <= p < r < m + 1 implies #[trigger] self.mod_files()[p]
                    != #[trigger] self.mod_files()[r] by {
                    if r == m {
                        assert(self.mod_files()[p] == self.mods()[p].file);
                    }
                }
            }
            m = m + 1;
        }
        proof {
            assert forall|p: int, q: int| 0 <= p < self.fn_keys().len() && 0 <= q < self.fn_keys().len() && p != q implies self.fn_keys()[p]
                != self.fn_keys()[q] by {
                if q < p {
                    assert(self.fn_keys()[q] != self.fn_keys()[p]);
                }
            }
            assert forall|p: int, q: int| 0 <= p < self.mod_files().len() && 0 <= q < self.mod_files().len() && p != q implies self.mod_files()[p]
                != self.mod_files()[q] by {
                if q < p {
                    assert(self.mod_files()[q] != self.mod_files()[p]);
                }
            }
            assert forall|p: int, q: int|
                0 <= p < self.fns().len() && 0 <= q < self.fns().len() && p != q implies #[trigger] self.fns()[p].pos
                    != #[trigger] self.fns()[q].pos by {
                if q < p {
                    assert(self.fns()[q].pos != self.fns()[p].pos);
                }
            }
        }
        self.alloc_counter <= 0x100_0000_0000
    }

    /// Hand out the next position of the hexagonal ring spiral.
    fn alloc_next_pos(&mut self) -> (p: LatticePos)
        requires
            old(self).counter() < counter_max() + 1000,
        ensures
            p == spiral_pos(old(self).counter()),
            final(self).counter() == old(self).counter() + 1,
            final(self).functions == old(self).functions,
            final(self).modules == old(self).modules,
    {
        let n = self.alloc_counter;
        proof {
            assert(ring_end(0x20_0000) >= counter_max() + 1000) by (nonlinear_arith);
            lemma_spiral_bound(n as int, 0x20_0000);
        }
        self.alloc_counter = self.alloc_counter + 1;
        let p = index_to_hex_spiral(n);
        p
    }

    /// Register a file/module and allocate its cell center: the next
    /// position of the ring spiral. A module registered before is left as it is.
    pub fn register_module(&mut self, file: FileId)
        requires
            old(self).wf(),
            old(self).counter() < counter_max(),
        ensures
            final(self).wf(),
            final(self).fns() == old(self).fns(),
            old(self).mod_files().contains(file@) ==> final(self).mods() == old(self).mods()
                && final(self).counter() == old(self).counter(),
            !old(self).mod_files().contains(file@) ==> final(self).mods() == old(self).mods().push(
                fresh_module(file@, spiral_pos(old(self).counter())),
            ) && final(self).counter() == old(self).counter() + 1,
            old(self).centers_on_spiral() ==> final(self).centers_on_spiral(),
            old(self).centers_on_spiral() && !old(self).mod_files().contains(file@) ==> forall|m: int|
                0 <= m < old(self).mods().len() ==> #[trigger] old(self).mods()[m].center
                    != final(self).mods()[old(self).mods().len() as int].center,
    {
        match self.find_module(&file) {
            Some(m) => {
                proof {
                    assert(self.mod_files()[m as int] == file@);
                }
                return;
            },
            None => {},
        }
        let ghost k = file@;
        proof {
            assert(ring_end(0x20_0000) >= counter_max() + 1000) by (nonlinear_arith);
            if old(self).centers_on_spiral() {
                assert forall|m: int| 0 <= m < old(self).mods().len() implies #[trigger] old(self).mods()[m].center
                    != spiral_pos(old(self).counter()) by {
                    let i = choose|i: int| 0 <= i < old(self).counter() && old(self).mods()[m].center == spiral_pos(i);
                    lemma_spiral_bound(i, 0x20_0000);
                    lemma_spiral_bound(old(self).counter(), 0x20_0000);
                    lemma_spiral_injective(i, old(self).counter());
                }
            }
        }
        let center = self.alloc_next_pos();
        proof {
            assert(ring_end(0x20_0000) >= counter_max() + 1000) by (nonlinear_arith);
            lemma_spiral_bound(old(self).counter(), 0x20_0000);
        }
        let cell = ModuleCell {
            file,
            functions: Vec::new(),
            center,
            imports: Vec::new(),
            imported_by: Vec::new(),
        };
        proof {
            assert(keys(cell.functions@) =~= Seq::<FnKey>::empty());
            assert(paths(cell.imports@) =~= Seq::<Seq<char>>::empty());
            assert(paths(cell.imported_by@) =~= Seq::<Seq<char>>::empty());
            assert(cell@ == fresh_module(k, spiral_pos(old(self).counter())));
        }
        self.modules.push(cell);
        proof {
            assert(self.mods() =~= old(self).mods().push(cell@));
            if old(self).centers_on_spiral() {
                assert forall|m: int| 0 <= m < self.mods().len() implies exists|i: int|
                    0 <= i < self.counter() && #[trigger] self.mods()[m].center == spiral_pos(i) by {
                    if m < old(self).mods().len() {
                        let i = choose|i: int| 0 <= i < old(self).counter() && old(self).mods()[m].center == spiral_pos(i);
                        assert(self.mods()[m] == old(self).mods()[m]);
                    } else {
                        assert(self.mods()[m].center == spiral_pos(old(self).counter()));
                    }
                }
            }
            assert(self.fns() =~= old(self).fns());
            assert(self.mod_files() =~= old(self).mod_files().push(k));
            assert forall|i: int| 0 <= i < self.fns().len() implies self.mod_files().contains(
                #[trigger] self.fns()[i].id.0,
            ) by {
                assert(old(self).fns()[i] == self.fns()[i]);
                assert(old(self).mod_files().contains(old(self).fns()[i].id.0));
                let j = choose|j: int| 0 <= j < old(self).mod_files().len() && old(self).mod_files()[j] == self.fns()[i].id.0;
                assert(self.mod_files()[j] == self.fns()[i].id.0);
            }
        }
    }

    /// The modules once `file` has a module: unchanged if it has one,
    /// otherwise with a fresh module at the next spiral position.
    pub open spec fn mods_with(&self, file: Seq<char>) -> Seq<ModuleView> {
        if self.mod_files().contains(file) {
            self.mods()
        } else {
            self.mods().push(fresh_module(file, spiral_pos(self.counter())))
        }
    }

    /// The spiral counter once `file` has a module.
    pub open spec fn counter_with(&self, file: Seq<char>) -> int {
        if self.mod_files().contains(file) {
            self.counter()
        } else {
            self.counter() + 1
        }
    }

    /// The index of `file`'s module once it has one.
    pub open spec fn module_index_with(&self, file: Seq<char>) -> int {
        if self.mod_files().contains(file) {
            index_in(self.mod_files(), file)
        } else {
            self.mods().len() as int
        }
    }

    /// Whether a function `key` can be registered, asking for position
    /// `asked`: it is registered already, or a position can be found for it.
    pub open spec fn can_register(&self, key: FnKey, asked: Option<LatticePos>) -> bool {
        ||| self.fn_keys().contains(key)
        ||| choose_position(
            self.positions(),
            asked,
            self.mods_with(key.0)[self.module_index_with(key.0)].center,
            self.counter_with(key.0),
        ) is Some
    }

    /// The first free lattice position near `center`: the first free cell of
    /// the hexagonal disks of radius `search_radius` to `search_radius + 20`
    /// around it; failing that, `center` or `center` plus one of the next 999
    /// spiral positions, using those spiral positions up as it goes.
    fn nearest_free_near(&mut self, center: LatticePos, search_radius: u32) -> (r: Option<LatticePos>)
        requires
            old(self).wf(),
            center_ok(center),
            old(self).counter() <= counter_max(),
            search_radius == 5,
        ensures
            final(self).functions == old(self).functions,
            final(self).modules == old(self).modules,
            r == (match placement(old(self).positions(), center, old(self).counter()) {
                Some((p, _)) => Some(p),
                None => None,
            }),
            placement(old(self).positions(), center, old(self).counter()) matches Some((_, t)) ==> final(self).counter() == old(self).counter() + t,
            final(self).counter() <= old(self).counter() + 1000,
    {
        let ghost taken = self.positions();
        let mut r: u32 = search_radius;
        while r <= search_radius + 20
            invariant
                self.positions() == taken,
                self.functions == old(self).functions,
                self.modules == old(self).modules,
                self.alloc_counter == old(self).alloc_counter,
                search_radius == 5,
                5 <= r <= 26,
                center_ok(center),
                disk_search(taken, center, 5, 25) == disk_search(taken, center, r as int, 25),
            decreases 26 - r,
        {
            let cells = hex_disk(r);
            let ghost cands = shifted(center, disk_cells(r as int));
            let mut j: usize = 0;
            while j < cells.len()
                invariant
                    self.positions() == taken,
                    self.functions == old(self).functions,
                    self.modules == old(self).modules,
                    self.alloc_counter == old(self).alloc_counter,
                    5 <= r <= 25,
                    center_ok(center),
                    disk_search(taken, center, 5, 25) == disk_search(taken, center, r as int, 25),
                    cells@ == disk_cells(r as int),
                    cands == shifted(center, disk_cells(r as int)),
                    j <= cells@.len(),
                    forall|u: int| 0 <= u < j ==> taken.contains(#[trigger] cands[u]),
                decreases cells@.len() - j,
            {
                let cell = cells[j];
                proof {
                    lemma_disk_cell_bound(r as int, j as int);
                }
                let cand = lattice_add(center, cell);
                proof {
                    assert(cand == cands[j as int]);
                }
                if !self.position_taken(cand) {
                    proof {
                        lemma_first_free_unique(taken, cands, j as int);
                    }
                    return Some(cand);
                }
                j = j + 1;
            }
            proof {
                if has_free(taken, cands) {
                    let t = first_free(taken, cands);
                    assert(taken.contains(cands[t]));
                }
            }
            r = r + 1;
        }
        let mut candidate = center;
        let ghost cands = fallback_cands(center, old(self).counter());
        let mut t: usize = 0;
        while t < 1000
            invariant
                self.positions() == taken,
                self.functions == old(self).functions,
                self.modules == old(self).modules,
                center_ok(center),
                disk_search(taken, center, 5, 25) is None,
                old(self).counter() <= counter_max(),
                cands == fallback_cands(center, old(self).counter()),
                t <= 1000,
                self.counter() == old(self).counter() + t,
                t < 1000 ==> candidate == cands[t as int],
                forall|u: int| 0 <= u < t ==> taken.contains(#[trigger] cands[u]),
            decreases 1000 - t,
        {
            if !self.position_taken(candidate) {
                proof {
                    lemma_first_free_unique(taken, cands, t as int);
                }
                return Some(candidate);
            }
            let n = self.alloc_counter;
            let step = self.alloc_next_pos();
            proof {
                assert(ring_end(0x20_0000) >= counter_max() + 1000) by (nonlinear_arith);
                lemma_spiral_bound(n as int, 0x20_0000);
            }
            candidate = lattice_add(center, step);
            t = t + 1;
        }
        proof {
            if has_free(taken, cands) {
                let u = first_free(taken, cands);
                assert(taken.contains(cands[u]));
            }
        }
        None
    }

    /// Place a new function: at `asked` if it is given and free, otherwise at
    /// the first free position near `center`.
    fn place_new(&mut self, asked: Option<LatticePos>, center: LatticePos) -> (p: LatticePos)
        requires
            old(self).wf(),
            center_ok(center),
            choose_position(old(self).positions(), asked, center, old(self).counter()) is Some,
        ensures
            final(self).functions == old(self).functions,
            final(self).modules == old(self).modules,
            ({
                let (q, t) = choose_position(old(self).positions(), asked, center, old(self).counter())->0;
                p == q && final(self).counter() == old(self).counter() + t
            }),
    {
        if let Some(q) = asked {
            if !self.position_taken(q) {
                return q;
            }
        }
        match self.nearest_free_near(center, 5) {
            Some(q) => q,
            None => center,
        }
    }

    /// Register a function node in `file`'s module, registering the module
    /// first if needed. A function registered before is left as it is.
    /// A new function is placed at `pos` if one is given and free, and
    /// otherwise at the first free position near its module's center.
    pub fn register_function(
        &mut self,
        file: FileId,
        name: String,
        complexity: u32,
        lines_of_code: u32,
        pos: Option<LatticePos>,
    )
        requires
            old(self).wf(),
            old(self).counter() + 1001 <= counter_max(),
            old(self).can_register((file@, name@), pos),
        ensures
            final(self).wf(),
            ({
                let key = (file@, name@);
                let mods1 = old(self).mods_with(file@);
                let c1 = old(self).counter_with(file@);
                let m = old(self).module_index_with(file@);
                if old(self).fn_keys().contains(key) {
                    &&& final(self).fns() == old(self).fns()
                    &&& final(self).mods() == mods1
                    &&& final(self).counter() == c1
                } else {
                    let (p, t) = choose_position(old(self).positions(), pos, mods1[m].center, c1)->0;
                    &&& final(self).fns() == old(self).fns().push(
                        NodeView {
                            id: key,
                            pos: p,
                            calls: Seq::empty(),
                            called_by: Seq::empty(),
                            complexity,
                            lines_of_code,
                        },
                    )
                    &&& final(self).mods() == mods1.update(
                        m,
                        ModuleView { functions: mods1[m].functions.push(key), ..mods1[m] },
                    )
                    &&& final(self).counter() == c1 + t
                }
            }),
            old(self).centers_on_spiral() ==> final(self).centers_on_spiral(),
    {
        let ghost key = (file@, name@);
        let ghost mods1 = old(self).mods_with(file@);
        let ghost c1 = old(self).counter_with(file@);
        let ghost m1 = old(self).module_index_with(file@);
        match self.find_module(&file) {
            Some(mi) => {
                proof {
                    assert(self.mod_files()[mi as int] == file@);
                }
            },
            None => {
                self.register_module(file.clone());
            },
        }
        let ghost spiral1 = self.centers_on_spiral();
        proof {
            assert(self.mods() == mods1);
            assert(self.counter() == c1);
            assert(self.fns() == old(self).fns());
            assert(self.mod_files() =~= mods1.map_values(|mv: ModuleView| mv.file));
            if old(self).mod_files().contains(file@) {
                let j = choose|j: int| 0 <= j < old(self).mod_files().len() && old(self).mod_files()[j] == file@;
                lemma_index_in(old(self).mod_files(), j);
            } else {
                assert(self.mod_files()[m1] == file@);
            }
            assert(0 <= m1 < self.mods().len());
            assert(self.mod_files()[m1] == file@);
        }
        let m = match self.find_module(&file) {
            Some(m) => m,
            None => {
                proof {
                    assert(self.mod_files()[m1] == file@);
                }
                0
            },
        };
        proof {
            lemma_index_in(self.mod_files(), m as int);
            lemma_index_in(self.mod_files(), m1);
            assert(m == m1);
        }
        let fn_id = FunctionId { file, name };
        if self.find_function(&fn_id).is_some() {
            proof {
                let i = choose|i: int| 0 <= i < self.fns().len() && self.fns()[i].id == key;
                assert(self.fn_keys()[i] == key);
            }
            return;
        }
        let ghost taken = self.positions();
        let center = self.modules[m].center;
        proof {
            assert(center == mods1[m1].center);
            assert(self.mods()[m as int].center == center);
        }
        let p = self.place_new(pos, center);
        proof {
            lemma_choose_position_free(taken, pos, center, c1);
            assert(!taken.contains(p));
        }
        let node = FunctionNode {
            id: fn_id.clone(),
            pos: p,
            calls: Vec::new(),
            called_by: Vec::new(),
            complexity,
            lines_of_code,
        };
        let ghost fns0 = self.fns();
        let ghost mf0 = self.mod_files();
        self.functions.push(node);
        let mut cell = self.modules.remove(m);
        cell.functions.push(fn_id);
        self.modules.insert(m, cell);
        proof {
            assert(keys(node.calls@) =~= Seq::<FnKey>::empty());
            assert(keys(node.called_by@) =~= Seq::<FnKey>::empty());
            assert(self.fns() =~= fns0.push(node@));
            assert(self.fn_keys() =~= old(self).fn_keys().push(key));
            assert(keys(cell.functions@) =~= mods1[m as int].functions.push(key));
            assert(self.mods() =~= mods1.update(
                m as int,
                ModuleView { functions: mods1[m as int].functions.push(key), ..mods1[m as int] },
            ));
            assert(self.mod_files() =~= mods1.map_values(|mv: ModuleView| mv.file));
            assert forall|i: int| 0 <= i < self.fns().len() implies self.mod_files().contains(
                #[trigger] self.fns()[i].id.0,
            ) by {
                if i < fns0.len() {
                    assert(fns0[i] == self.fns()[i]);
                    assert(mf0.contains(fns0[i].id.0));
                    assert(self.mod_files() == mf0);
                } else {
                    assert(self.fns()[i].id == key);
                    assert(self.mod_files()[m as int] == self.fns()[i].id.0);
                }
            }
            assert forall|i: int, j: int|
                0 <= i < self.fns().len() && 0 <= j < self.fns().len() && i != j implies #[trigger] self.fns()[i].pos
                    != #[trigger] self.fns()[j].pos by {
                if i < fns0.len() && j < fns0.len() {
                    assert(fns0[i] == self.fns()[i] && fns0[j] == self.fns()[j]);
                } else if i < fns0.len() {
                    assert(taken[i] == fns0[i].pos);
                } else {
                    assert(taken[j] == fns0[j].pos);
                }
            }
            if old(self).centers_on_spiral() {
                assert(spiral1);
                assert forall|k: int| 0 <= k < self.mods().len() implies exists|i: int|
                    0 <= i < self.counter() && #[trigger] self.mods()[k].center == spiral_pos(i) by {
                    assert(self.mods()[k].center == mods1[k].center);
                }
            }
        }
    }

    /// Set the cell center of module `m`.
    pub fn set_module_center(&mut self, m: usize, center: LatticePos)
        requires
            old(self).wf(),
            m < old(self).mods().len(),
            center_ok(center),
        ensures
            final(self).wf(),
            final(self).fns() == old(self).fns(),
            final(self).mods() == old(self).mods().update(
                m as int,
                ModuleView { center, ..old(self).mods()[m as int] },
            ),
            final(self).counter() == old(self).counter(),
    {
        let mut cell = self.modules.remove(m);
        cell.center = center;
        self.modules.insert(m, cell);
        proof {
            assert(self.mods() =~= old(self).mods().update(
                m as int,
                ModuleView { center, ..old(self).mods()[m as int] },
            ));
            assert(self.fns() =~= old(self).fns());
            assert(self.mod_files() =~= old(self).mod_files());
        }
    }

    /// Whether some function already sits at `p`.
    pub fn position_taken(&self, p: LatticePos) -> (b: bool)
        ensures
            b == self.positions().contains(p),
    {
        let mut i: usize = 0;
        while i < self.functions.len()
            invariant
                i <= self.functions@.len(),
                forall|j: int| 0 <= j < i ==> self.fns()[j].pos != p,
            decreases self.functions@.len() - i,
        {
            if self.functions[i].pos == p {
                proof {
                    assert(self.positions()[i as int] == p);
                }
                return true;
            }
            i = i + 1;
        }
        proof {
            if self.positions().contains(p) {
                let j = choose|j: int| 0 <= j < self.positions().len() && self.positions()[j] == p;
                assert(self.fns()[j].pos == p);
            }
        }
        false
    }
}


/// While fewer than 999 functions are registered, every function can be
/// registered, wherever it asks to be placed: a free position is always
/// found near its module's center.
pub proof fn lemma_can_register(g: CodeGraph, key: FnKey, asked: Option<LatticePos>)
    requires
        g.wf(),
        g.fns().len() < 999,
        g.counter() + 1001 <= counter_max(),
    ensures
        g.can_register(key, asked),
{
    if !g.fn_keys().contains(key) {
        let m = g.module_index_with(key.0);
        let center = g.mods_with(key.0)[m].center;
        if g.mod_files().contains(key.0) {
            let j = choose|j: int| 0 <= j < g.mod_files().len() && g.mod_files()[j] == key.0;
            lemma_index_in(g.mod_files(), j);
            assert(g.mods()[j].center == center);
        } else {
            assert(ring_end(0x20_0000) >= counter_max() + 1000) by (nonlinear_arith);
            lemma_spiral_bound(g.counter(), 0x20_0000);
            assert(center == spiral_pos(g.counter()));
        }
        assert(g.positions().len() == g.fns().len());
        lemma_fallback_has_free(g.positions(), center, g.counter_with(key.0));
    }
}

impl Default for CodeGraph {
    /// An empty code graph.
    fn default() -> (g: Self)
        ensures
            g.wf(),
            g.fns() == Seq::<NodeView>::empty(),
            g.mods() == Seq::<ModuleView>::empty(),
            g.counter() == 0,
    {
        Self::new()
    }
}

// ---------------------------------------------------------------------------
// Calls and imports
// ---------------------------------------------------------------------------

/// `s` with `x` appended, unless `s` holds it already.
pub open spec fn add_unique<A>(s: Seq<A>, x: A) -> Seq<A> {
    if s.contains(x) {
        s
    } else {
        s.push(x)
    }
}

/// The nodes once the node `caller` lists `callee` among its calls.
pub open spec fn add_callee(fns: Seq<NodeView>, caller: FnKey, callee: FnKey) -> Seq<NodeView> {
    fns.map_values(
        |n: NodeView|
            if n.id == caller {
                NodeView { calls: add_unique(n.calls, callee), ..n }
            } else {
                n
            },
    )
}

/// The nodes once the node `callee` lists `caller` among its callers.
pub open spec fn add_caller(fns: Seq<NodeView>, callee: FnKey, caller: FnKey) -> Seq<NodeView> {
    fns.map_values(
        |n: NodeView|
            if n.id == callee {
                NodeView { called_by: add_unique(n.called_by, caller), ..n }
            } else {
                n
            },
    )
}

/// The modules and the spiral counter once `file` has a module: unchanged
/// if it has one, otherwise with a fresh module at spiral position `c`.
pub open spec fn with_module(mods: Seq<ModuleView>, c: int, file: Seq<char>) -> (Seq<ModuleView>, int) {
    if mods.map_values(|m: ModuleView| m.file).contains(file) {
        (mods, c)
    } else {
        (mods.push(fresh_module(file, spiral_pos(c))), c + 1)
    }
}

/// The modules once the module of `importer` lists `imported` among its imports.
pub open spec fn add_imported(mods: Seq<ModuleView>, importer: Seq<char>, imported: Seq<char>) -> Seq<ModuleView> {
    mods.map_values(
        |m: ModuleView|
            if m.file == importer {
                ModuleView { imports: add_unique(m.imports, imported), ..m }
            } else {
                m
            },
    )
}

/// The modules once the module of `imported` lists `importer` among the
/// modules that import it.
pub open spec fn add_importer(mods: Seq<ModuleView>, imported: Seq<char>, importer: Seq<char>) -> Seq<ModuleView> {
    mods.map_values(
        |m: ModuleView|
            if m.file == imported {
                ModuleView { imported_by: add_unique(m.imported_by, importer), ..m }
            } else {
                m
            },
    )
}

/// Whether `v` holds `id`.
pub fn contains_fn(v: &Vec<FunctionId>, id: &FunctionId) -> (b: bool)
    ensures
        b == keys(v@).contains(id@),
{
    let mut i: usize = 0;
    while i < v.len()
        invariant
            i <= v@.len(),
            forall|j: int| 0 <= j < i ==> v@[j]@ != id@,
        decreases v@.len() - i,
    {
        if v[i] == *id {
            proof {
                assert(keys(v@)[i as int] == id@);
            }
            return true;
        }
        i = i + 1;
    }
    proof {
        if keys(v@).contains(id@) {
            let j = choose|j: int| 0 <= j < keys(v@).len() && keys(v@)[j] == id@;
            assert(v@[j]@ == id@);
        }
    }
    false
}

/// Whether `v` holds `file`.
pub fn contains_file(v: &Vec<FileId>, file: &FileId) -> (b: bool)
    ensures
        b == paths(v@).contains(file@),
{
    let mut i: usize = 0;
    while i < v.len()
        invariant
            i <= v@.len(),
            forall|j: int| 0 <= j < i ==> v@[j]@ != file@,
        decreases v@.len() - i,
    {
        if v[i] == *file {
            proof {
                assert(paths(v@)[i as int] == file@);
            }
            return true;
        }
        i = i + 1;
    }
    proof {
        if paths(v@).contains(file@) {
            let j = choose|j: int| 0 <= j < paths(v@).len() && paths(v@)[j] == file@;
            assert(v@[j]@ == file@);
        }
    }
    false
}

/// Append `id` to `v` unless `v` holds it already.
fn push_unique_fn(v: &mut Vec<FunctionId>, id: &FunctionId)
    ensures
        keys(final(v)@) == add_unique(keys(old(v)@), id@),
{
    if !contains_fn(v, id) {
        let ghost v0 = v@;
        v.push(id.clone());
        proof {
            assert(keys(v@) =~= keys(v0).push(id@));
        }
    }
}

/// Append `file` to `v` unless `v` holds it already.
fn push_unique_file(v: &mut Vec<FileId>, file: &FileId)
    ensures
        paths(final(v)@) == add_unique(paths(old(v)@), file@),
{
    if !contains_file(v, file) {
        let ghost v0 = v@;
        v.push(file.clone());
        proof {
            assert(paths(v@) =~= paths(v0).push(file@));
        }
    }
}

impl CodeGraph {
    /// Add a call edge from `caller` to `callee`: the caller's node lists the
    /// callee among its calls and the callee's node lists the caller among
    /// its callers, each once. An unregistered end is left out.
    pub fn add_call(&mut self, caller: &FunctionId, callee: &FunctionId)
        requires
            old(self).wf(),
        ensures
            final(self).wf(),
            final(self).fns() == add_caller(add_callee(old(self).fns(), caller@, callee@), callee@, caller@),
            final(self).mods() == old(self).mods(),
            final(self).counter() == old(self).counter(),
    {
        let ghost f0 = self.fns();
        let ghost f1 = add_callee(f0, caller@, callee@);
        match self.find_function(caller) {
            Some(i) => {
                let mut node = self.functions.remove(i);
                push_unique_fn(&mut node.calls, callee);
                self.functions.insert(i, node);
                proof {
                    assert forall|k: int| 0 <= k < f0.len() && k != i implies f0[k].id != caller@ by {
                        assert(old(self).fn_keys()[k] == f0[k].id);
                        assert(old(self).fn_keys()[i as int] == f0[i as int].id);
                    }
                    assert(self.fns() =~= f1);
                }
            },
            None => {
                proof {
                    assert forall|k: int| 0 <= k < f0.len() implies f0[k].id != caller@ by {
                        assert(old(self).fn_keys()[k] == f0[k].id);
                    }
                    assert(self.fns() =~= f1);
                }
            },
        }
        proof {
            assert(self.fn_keys() =~= old(self).fn_keys());
            assert(self.positions() =~= old(self).positions());
            assert(self.mods() =~= old(self).mods());
        }
        let ghost f2 = add_caller(f1, callee@, caller@);
        match self.find_function(callee) {
            Some(j) => {
                let mut node = self.functions.remove(j);
                push_unique_fn(&mut node.called_by, caller);
                self.functions.insert(j, node);
                proof {
                    assert forall|k: int| 0 <= k < f1.len() && k != j implies f1[k].id != callee@ by {
                        assert(old(self).fn_keys()[k] == f1[k].id);
                        assert(old(self).fn_keys()[j as int] == f1[j as int].id);
                    }
                    assert(self.fns() =~= f2);
                }
            },
            None => {
                proof {
                    assert forall|k: int| 0 <= k < f1.len() implies f1[k].id != callee@ by {
                        assert(old(self).fn_keys()[k] == f1[k].id);
                    }
                    assert(self.fns() =~= f2);
                }
            },
        }
        proof {
            assert(self.fn_keys() =~= old(self).fn_keys());
            assert(self.positions() =~= old(self).positions());
            assert(self.mods() =~= old(self).mods());
            assert(self.mod_files() =~= old(self).mod_files());
            assert forall|i: int| 0 <= i < self.fns().len() implies self.mod_files().contains(
                #[trigger] self.fns()[i].id.0,
            ) by {
                assert(self.fns()[i].id == old(self).fns()[i].id);
                assert(old(self).mod_files().contains(old(self).fns()[i].id.0));
            }
            assert forall|i: int, j: int|
                0 <= i < self.fns().len() && 0 <= j < self.fns().len() && i != j implies #[trigger] self.fns()[i].pos
                    != #[trigger] self.fns()[j].pos by {
                assert(self.positions()[i] == old(self).positions()[i]);
                assert(self.positions()[j] == old(self).positions()[j]);
            }
        }
    }
}

impl CodeGraph {
    /// Register an import from `importer` to `imported`, registering either
    /// module first if needed (the importer first). The importer's module
    /// lists `imported` among its imports and the imported module lists
    /// `importer` among the modules that import it, each once.
    pub fn add_import(&mut self, importer: &FileId, imported: &FileId)
        requires
            old(self).wf(),
            old(self).counter() + 2 <= counter_max(),
        ensures
            final(self).wf(),
            final(self).fns() == old(self).fns(),
            ({
                let (m1, c1) = with_module(old(self).mods(), old(self).counter(), importer@);
                let (m2, c2) = with_module(m1, c1, imported@);
                &&& final(self).mods() == add_importer(add_imported(m2, importer@, imported@), imported@, importer@)
                &&& final(self).counter() == c2
            }),
            old(self).centers_on_spiral() ==> final(self).centers_on_spiral(),
    {
        let ghost (m1, c1) = with_module(old(self).mods(), old(self).counter(), importer@);
        let ghost (m2, c2) = with_module(m1, c1, imported@);
        self.register_module(importer.clone());
        proof {
            assert(old(self).mod_files() == old(self).mods().map_values(|m: ModuleView| m.file));
            assert(self.mods() == m1 && self.counter() == c1);
        }
        self.register_module(imported.clone());
        proof {
            assert(self.mods() == m2 && self.counter() == c2);
        }
        let ghost spiral2 = self.centers_on_spiral();
        let ghost g1 = add_imported(m2, importer@, imported@);
        let ghost g2 = add_importer(g1, imported@, importer@);
        let ghost mf2 = self.mod_files();
        match self.find_module(importer) {
            Some(i) => {
                proof {
                    assert(mf2[i as int] == importer@);
                }
                let mut cell = self.modules.remove(i);
                push_unique_file(&mut cell.imports, imported);
                self.modules.insert(i, cell);
                proof {
                    assert forall|k: int| 0 <= k < m2.len() && k != i implies m2[k].file != importer@ by {
                        assert(mf2[k] == m2[k].file);
                    }
                    assert(self.mods() =~= g1);
                }
            },
            None => {
                proof {
                    assert forall|k: int| 0 <= k < m2.len() implies m2[k].file != importer@ by {
                        assert(self.mod_files()[k] == m2[k].file);
                    }
                    assert(self.mods() =~= g1);
                }
            },
        }
        proof {
            assert(self.mod_files() =~= m2.map_values(|m: ModuleView| m.file));
        }
        match self.find_module(imported) {
            Some(j) => {
                proof {
                    assert(mf2[j as int] == imported@);
                }
                let mut cell = self.modules.remove(j);
                push_unique_file(&mut cell.imported_by, importer);
                self.modules.insert(j, cell);
                proof {
                    assert forall|k: int| 0 <= k < g1.len() && k != j implies g1[k].file != imported@ by {
                        assert(mf2[k] == g1[k].file);
                    }
                    assert(self.mods() =~= g2);
                }
            },
            None => {
                proof {
                    assert forall|k: int| 0 <= k < g1.len() implies g1[k].file != imported@ by {
                        assert(self.mod_files()[k] == g1[k].file);
                    }
                    assert(self.mods() =~= g2);
                }
            },
        }
        proof {
            assert(self.mod_files() =~= m2.map_values(|m: ModuleView| m.file));
            assert forall|m: int| 0 <= m < self.mods().len() implies center_ok(#[trigger] self.mods()[m].center) by {
                assert(self.mods()[m].center == m2[m].center);
            }
            if old(self).centers_on_spiral() {
                assert(spiral2);
                assert forall|m: int| 0 <= m < self.mods().len() implies exists|i: int|
                    0 <= i < self.counter() && #[trigger] self.mods()[m].center == spiral_pos(i) by {
                    assert(self.mods()[m].center == m2[m].center);
                }
            }
        }
    }

    /// The position of the function registered under `k`.
    pub open spec fn pos_of(&self, k: FnKey) -> LatticePos {
        self.fns()[index_in(self.fn_keys(), k)].pos
    }

    /// The center of the module registered for `f`.
    pub open spec fn center_of(&self, f: Seq<char>) -> LatticePos {
        self.mods()[index_in(self.mod_files(), f)].center
    }

    /// Lattice distance between two functions, if both are registered.
    pub fn function_distance(&self, a: &FunctionId, b: &FunctionId) -> (r: Option<u32>)
        requires
            self.wf(),
            self.fn_keys().contains(a@) && self.fn_keys().contains(b@) ==> distance_defined(
                self.pos_of(a@),
                self.pos_of(b@),
            ),
        ensures
            r == (if self.fn_keys().contains(a@) && self.fn_keys().contains(b@) {
                Some(lattice_dist(self.pos_of(a@), self.pos_of(b@)) as u32)
            } else {
                None::<u32>
            }),
    {
        let i = match self.find_function(a) {
            Some(i) => i,
            None => return None,
        };
        let j = match self.find_function(b) {
            Some(j) => j,
            None => return None,
        };
        proof {
            assert(self.fn_keys()[i as int] == a@ && self.fn_keys()[j as int] == b@);
            lemma_index_in(self.fn_keys(), i as int);
            lemma_index_in(self.fn_keys(), j as int);
        }
        Some(distance_between(self.functions[i].pos, self.functions[j].pos))
    }

    /// Lattice distance between two modules (between their centers), if both
    /// are registered.
    pub fn module_distance(&self, a: &FileId, b: &FileId) -> (r: Option<u32>)
        requires
            self.wf(),
            self.mod_files().contains(a@) && self.mod_files().contains(b@) ==> distance_defined(
                self.center_of(a@),
                self.center_of(b@),
            ),
        ensures
            r == (if self.mod_files().contains(a@) && self.mod_files().contains(b@) {
                Some(lattice_dist(self.center_of(a@), self.center_of(b@)) as u32)
            } else {
                None::<u32>
            }),
    {
        let i = match self.find_module(a) {
            Some(i) => i,
            None => return None,
        };
        let j = match self.find_module(b) {
            Some(j) => j,
            None => return None,
        };
        proof {
            assert(self.mod_files()[i as int] == a@ && self.mod_files()[j as int] == b@);
            lemma_index_in(self.mod_files(), i as int);
            lemma_index_in(self.mod_files(), j as int);
        }
        Some(distance_between(self.modules[i].center, self.modules[j].center))
    }

    /// The module cell of `fn_id`'s file, if it is registered.
    pub fn module_for_function(&self, fn_id: &FunctionId) -> (r: Option<&ModuleCell>)
        requires
            self.wf(),
        ensures
            match r {
                Some(cell) => self.mod_files().contains(fn_id.file@) && cell@ == self.mods()[index_in(
                    self.mod_files(),
                    fn_id.file@,
                )],
                None => !self.mod_files().contains(fn_id.file@),
            },
    {
        match self.find_module(&fn_id.file) {
            Some(m) => {
                proof {
                    assert(self.mod_files()[m as int] == fn_id.file@);
                    lemma_index_in(self.mod_files(), m as int);
                }
                Some(&self.modules[m])
            },
            None => None,
        }
    }
}

/// Whether node `n` is another function than `key` within lattice distance
/// `max` of `center`.
pub open spec fn is_near(key: FnKey, center: LatticePos, max: int) -> spec_fn(NodeView) -> bool {
    |n: NodeView| n.id != key && lattice_dist(n.pos, center) <= max
}

/// The keys of the nodes other than `key` within lattice distance `max` of
/// `center`, in registration order.
pub open spec fn near_keys(fns: Seq<NodeView>, key: FnKey, center: LatticePos, max: int) -> Seq<FnKey> {
    fns.filter(is_near(key, center, max)).map_values(|n: NodeView| n.id)
}

/// Whether node `n` belongs to `file`.
pub open spec fn in_file(file: Seq<char>) -> spec_fn(NodeView) -> bool {
    |n: NodeView| n.id.0 == file
}

/// The largest distance from the origin among the positions of `fns`, or 0.
pub open spec fn max_radius(fns: Seq<NodeView>) -> int
    decreases fns.len(),
{
    if fns.len() == 0 {
        0
    } else {
        let r = max_radius(fns.drop_last());
        let d = pos_dist(fns.last().pos);
        if d > r {
            d
        } else {
            r
        }
    }
}

impl CodeGraph {
    /// The functions other than `fn_id` within lattice distance
    /// `max_distance` of it, in registration order; none if `fn_id` is not
    /// registered.
    pub fn functions_within_distance(&self, fn_id: &FunctionId, max_distance: u32) -> (r: Vec<FunctionId>)
        requires
            self.wf(),
            self.fn_keys().contains(fn_id@) ==> forall|i: int|
                0 <= i < self.fns().len() ==> distance_defined(#[trigger] self.fns()[i].pos, self.pos_of(fn_id@)),
        ensures
            keys(r@) == (if self.fn_keys().contains(fn_id@) {
                near_keys(self.fns(), fn_id@, self.pos_of(fn_id@), max_distance as int)
            } else {
                Seq::<FnKey>::empty()
            }),
    {
        let mut r: Vec<FunctionId> = Vec::new();
        let c = match self.find_function(fn_id) {
            Some(c) => c,
            None => {
                proof {
                    assert(keys(r@) =~= Seq::<FnKey>::empty());
                }
                return r;
            },
        };
        proof {
            assert(self.fn_keys()[c as int] == fn_id@);
            lemma_index_in(self.fn_keys(), c as int);
        }
        let center = self.functions[c].pos;
        let ghost fns = self.fns();
        let ghost pred = is_near(fn_id@, center, max_distance as int);
        let mut i: usize = 0;
        while i < self.functions.len()
            invariant
                fns == self.fns(),
                center == self.pos_of(fn_id@),
                pred == is_near(fn_id@, center, max_distance as int),
                i <= fns.len(),
                forall|k: int| 0 <= k < fns.len() ==> distance_defined(#[trigger] fns[k].pos, center),
                keys(r@) == fns.take(i as int).filter(pred).map_values(|n: NodeView| n.id),
            decreases fns.len() - i,
        {
            let node = &self.functions[i];
            proof {
                assert(fns[i as int] == node@);
                assert(fns.take(i + 1) =~= fns.take(i as int).push(node@));
                fns.take(i as int).lemma_filter_push(node@, pred);
            }
            let ghost r0 = r@;
            if node.id != *fn_id && distance_between(node.pos, center) <= max_distance {
                r.push(node.id.clone());
                proof {
                    assert(keys(r@) =~= keys(r0).push(node@.id));
                }
            }
            i = i + 1;
        }
        proof {
            assert(fns.take(fns.len() as int) =~= fns);
        }
        r
    }

    /// The positions of the functions of `file`, in registration order.
    pub fn module_positions(&self, file: &FileId) -> (r: Vec<LatticePos>)
        ensures
            r@ == self.fns().filter(in_file(file@)).map_values(|n: NodeView| n.pos),
    {
        let mut r: Vec<LatticePos> = Vec::new();
        let ghost fns = self.fns();
        let mut i: usize = 0;
        while i < self.functions.len()
            invariant
                fns == self.fns(),
                i <= fns.len(),
                r@ == fns.take(i as int).filter(in_file(file@)).map_values(|n: NodeView| n.pos),
            decreases fns.len() - i,
        {
            let node = &self.functions[i];
            proof {
                assert(fns[i as int] == node@);
                assert(fns.take(i + 1) =~= fns.take(i as int).push(node@));
                fns.take(i as int).lemma_filter_push(node@, in_file(file@));
            }
            let ghost r0 = r@;
            if node.id.file == *file {
                r.push(node.pos);
                proof {
                    assert(r@ =~= r0.push(node@.pos));
                }
            }
            i = i + 1;
        }
        proof {
            assert(fns.take(fns.len() as int) =~= fns);
        }
        r
    }

    /// The largest lattice distance of a function from the origin, or 0.
    pub fn lattice_radius(&self) -> (r: u32)
        requires
            forall|i: int| 0 <= i < self.fns().len() ==> hex_sum(
                (#[trigger] self.fns()[i]).pos.a as int,
                self.fns()[i].pos.b as int,
            ) <= i32_max(),
        ensures
            r == max_radius(self.fns()),
    {
        let ghost fns = self.fns();
        let mut best: u32 = 0;
        let mut i: usize = 0;
        while i < self.functions.len()
            invariant
                fns == self.fns(),
                i <= fns.len(),
                forall|k: int| 0 <= k < fns.len() ==> hex_sum(
                    (#[trigger] fns[k]).pos.a as int,
                    fns[k].pos.b as int,
                ) <= i32_max(),
                best == max_radius(fns.take(i as int)),
            decreases fns.len() - i,
        {
            proof {
                assert(fns.take(i + 1).drop_last() =~= fns.take(i as int));
                assert(fns[i as int] == self.functions@[i as int]@);
            }
            let d = hex_distance(self.functions[i].pos);
            if d > best {
                best = d;
            }
            i = i + 1;
        }
        proof {
            assert(fns.take(fns.len() as int) =~= fns);
        }
        best
    }
}

// ---------------------------------------------------------------------------
// Call chains
// ---------------------------------------------------------------------------

/// Whether the node registered under `x` lists `y` among its calls.
pub open spec fn calls_to(fns: Seq<NodeView>, x: FnKey, y: FnKey) -> bool {
    exists|i: int| 0 <= i < fns.len() && (#[trigger] fns[i]).id == x && fns[i].calls.contains(y)
}

/// Whether `p` is a chain of calls: each function in it calls the next.
pub open spec fn is_chain(fns: Seq<NodeView>, p: Seq<FnKey>) -> bool {
    &&& p.len() >= 1
    &&& forall|i: int| 0 <= i < p.len() - 1 ==> calls_to(fns, #[trigger] p[i], p[i + 1])
}

/// Whether a chain of at most `d` calls leads from `s` to `y`.
pub open spec fn reach_within(fns: Seq<NodeView>, s: FnKey, y: FnKey, d: nat) -> bool {
    exists|p: Seq<FnKey>| #[trigger] is_chain(fns, p) && p[0] == s && p.last() == y && p.len() <= d + 1
}

/// Whether the shortest chain of calls from `s` to `y` has exactly `d` calls.
pub open spec fn at_level(fns: Seq<NodeView>, s: FnKey, y: FnKey, d: nat) -> bool {
    reach_within(fns, s, y, d) && (d == 0 || !reach_within(fns, s, y, (d - 1) as nat))
}

/// With no call at all, only `s` itself is reached.
pub proof fn lemma_reach_zero(fns: Seq<NodeView>, s: FnKey, y: FnKey)
    ensures
        reach_within(fns, s, y, 0) <==> y == s,
{
    if y == s {
        let p = seq![s];
        assert(is_chain(fns, p));
    }
}

/// A chain of at most `a` calls is one of at most `b` calls, for `a <= b`.
pub proof fn lemma_reach_monotone(fns: Seq<NodeView>, s: FnKey, y: FnKey, a: nat, b: nat)
    requires
        a <= b,
        reach_within(fns, s, y, a),
    ensures
        reach_within(fns, s, y, b),
{
    let p = choose|p: Seq<FnKey>| #[trigger] is_chain(fns, p) && p[0] == s && p.last() == y && p.len() <= a + 1;
}

/// A chain to `x` followed by a call from `x` to `y` is a chain to `y`.
pub proof fn lemma_reach_push(fns: Seq<NodeView>, s: FnKey, x: FnKey, y: FnKey, d: nat)
    requires
        reach_within(fns, s, x, d),
        calls_to(fns, x, y),
    ensures
        reach_within(fns, s, y, d + 1),
{
    let p = choose|p: Seq<FnKey>| #[trigger] is_chain(fns, p) && p[0] == s && p.last() == x && p.len() <= d + 1;
    let q = p.push(y);
    assert forall|i: int| 0 <= i < q.len() - 1 implies calls_to(fns, #[trigger] q[i], q[i + 1]) by {
        if i < p.len() - 1 {
            assert(q[i] == p[i] && q[i + 1] == p[i + 1]);
        }
    }
    assert(is_chain(fns, q));
}

/// A function first reached in `d + 1` calls is called from one reached in `d`.
pub proof fn lemma_reach_last(fns: Seq<NodeView>, s: FnKey, y: FnKey, d: nat) -> (x: FnKey)
    requires
        reach_within(fns, s, y, d + 1),
        !reach_within(fns, s, y, d),
    ensures
        reach_within(fns, s, x, d),
        calls_to(fns, x, y),
{
    let p = choose|p: Seq<FnKey>| #[trigger] is_chain(fns, p) && p[0] == s && p.last() == y && p.len() <= d + 2;
    if p.len() == 1 {
        assert(false);
    }
    let q = p.drop_last();
    assert forall|i: int| 0 <= i < q.len() - 1 implies calls_to(fns, #[trigger] q[i], q[i + 1]) by {
        assert(q[i] == p[i] && q[i + 1] == p[i + 1]);
    }
    assert(is_chain(fns, q));
    assert(calls_to(fns, p[p.len() - 2], p[p.len() - 1]));
    q.last()
}

/// Once no function is first reached in exactly `d` calls, no function is
/// first reached in more.
proof fn lemma_reach_stable(fns: Seq<NodeView>, s: FnKey, d: nat, e: nat)
    requires
        d >= 1,
        forall|y: FnKey| #[trigger] reach_within(fns, s, y, d) ==> reach_within(fns, s, y, (d - 1) as nat),
    ensures
        forall|y: FnKey| #[trigger] reach_within(fns, s, y, d + e) ==> reach_within(fns, s, y, (d - 1) as nat),
    decreases e,
{
    if e > 0 {
        lemma_reach_stable(fns, s, d, (e - 1) as nat);
        assert forall|y: FnKey| #[trigger] reach_within(fns, s, y, d + e) implies reach_within(
            fns,
            s,
            y,
            (d - 1) as nat,
        ) by {
            let e1 = (d + e - 1) as nat;
            if !reach_within(fns, s, y, e1) {
                let x = lemma_reach_last(fns, s, y, e1);
                assert(reach_within(fns, s, x, d + (e - 1) as nat));
                assert(reach_within(fns, s, x, (d - 1) as nat));
                lemma_reach_push(fns, s, x, y, (d - 1) as nat);
            } else {
                assert(reach_within(fns, s, y, d + (e - 1) as nat));
            }
        }
    }
}

/// A sequence without duplicates that lies within another is no longer.
proof fn lemma_nodup_within_len<A>(a: Seq<A>, b: Seq<A>)
    requires
        a.no_duplicates(),
        forall|y: A| a.contains(y) ==> b.contains(y),
    ensures
        a.len() <= b.len(),
{
    a.unique_seq_to_set();
    b.lemma_cardinality_of_set();
    assert(a.to_set().subset_of(b.to_set()));
    vstd::set_lib::lemma_len_subset(a.to_set(), b.to_set());
}

impl CodeGraph {
    /// The length of the shortest call chain from `start` to `target`: 0 when
    /// they are the same function, `None` when no chain leads there. Only
    /// registered functions have calls; `target` itself need not be registered.
    pub fn call_distance(&self, start: &FunctionId, target: &FunctionId) -> (r: Option<usize>)
        requires
            self.wf(),
        ensures
            match r {
                Some(d) => at_level(self.fns(), start@, target@, d as nat),
                None => forall|d: nat| !reach_within(self.fns(), start@, target@, d),
            },
    {
        if *start == *target {
            proof {
                lemma_reach_zero(self.fns(), start@, target@);
            }
            return Some(0);
        }
        let ghost fns = self.fns();
        let ghost s = start@;
        let ghost t = target@;
        // Every function a chain can reach: `start` and every callee.
        let mut all: Vec<FunctionId> = Vec::new();
        all.push(start.clone());
        proof {
            assert(keys(all@)[0] == s);
        }
        let mut i: usize = 0;
        while i < self.functions.len()
            invariant
                fns == self.fns(),
                i <= fns.len(),
                keys(all@).contains(s),
                forall|k: int, y: FnKey| 0 <= k < i && #[trigger] fns[k].calls.contains(y) ==> keys(all@).contains(y),
            decreases fns.len() - i,
        {
            let mut j: usize = 0;
            while j < self.functions[i].calls.len()
                invariant
                    fns == self.fns(),
                    i < fns.len(),
                    j <= fns[i as int].calls.len(),
                    keys(all@).contains(s),
                    forall|k: int, y: FnKey| 0 <= k < i && #[trigger] fns[k].calls.contains(y) ==> keys(all@).contains(y),
                    forall|l: int| 0 <= l < j ==> keys(all@).contains(#[trigger] fns[i as int].calls[l]),
                decreases fns[i as int].calls.len() - j,
            {
                let ghost a0 = all@;
                all.push(self.functions[i].calls[j].clone());
                proof {
                    assert(keys(all@) =~= keys(a0).push(fns[i as int].calls[j as int]));
                    assert forall|y: FnKey| keys(a0).contains(y) implies keys(all@).contains(y) by {
                        let q = choose|q: int| 0 <= q < keys(a0).len() && keys(a0)[q] == y;
                        assert(keys(all@)[q] == y);
                    }
                    assert(keys(all@)[a0.len() as int] == fns[i as int].calls[j as int]);
                }
                j = j + 1;
            }
            proof {
                assert forall|k: int, y: FnKey| 0 <= k < i + 1 && #[trigger] fns[k].calls.contains(y) implies keys(all@).contains(y) by {
                    if k == i {
                        let l = choose|l: int| 0 <= l < fns[k].calls.len() && fns[k].calls[l] == y;
                        assert(keys(all@).contains(fns[i as int].calls[l]));
                    }
                }
            }
            i = i + 1;
        }
        let ghost univ = keys(all@);
        proof {
            assert forall|x: FnKey, y: FnKey| calls_to(fns, x, y) implies univ.contains(y) by {
                let k = choose|k: int| 0 <= k < fns.len() && (#[trigger] fns[k]).id == x && fns[k].calls.contains(y);
            }
        }
        let mut visited: Vec<FunctionId> = Vec::new();
        visited.push(start.clone());
        let mut frontier: Vec<FunctionId> = Vec::new();
        frontier.push(start.clone());
        let mut d: usize = 0;
        proof {
            assert(keys(visited@) =~= seq![s]);
            assert(keys(frontier@) =~= seq![s]);
            assert forall|y: FnKey| keys(visited@).contains(y) <==> reach_within(fns, s, y, 0) by {
                lemma_reach_zero(fns, s, y);
                if y == s {
                    assert(keys(visited@)[0] == y);
                }
            }
            assert forall|y: FnKey| keys(frontier@).contains(y) <==> #[trigger] at_level(fns, s, y, 0) by {
                lemma_reach_zero(fns, s, y);
                if y == s {
                    assert(keys(frontier@)[0] == y);
                }
            }
            lemma_reach_zero(fns, s, t);
        }
        while frontier.len() > 0
            invariant
                self.wf(),
                fns == self.fns(),
                s == start@,
                t == target@,
                s != t,
                univ == keys(all@),
                forall|x: FnKey, y: FnKey| calls_to(fns, x, y) ==> univ.contains(y),
                univ.contains(s),
                forall|y: FnKey| keys(visited@).contains(y) <==> #[trigger] reach_within(fns, s, y, d as nat),
                forall|y: FnKey| keys(frontier@).contains(y) <==> #[trigger] at_level(fns, s, y, d as nat),
                !reach_within(fns, s, t, d as nat),
                keys(visited@).no_duplicates(),
                visited@.len() <= univ.len(),
                forall|y: FnKey| keys(visited@).contains(y) ==> univ.contains(y),
                d == 0 ==> frontier@.len() > 0,
                d <= visited@.len(),
                frontier@.len() > 0 ==> d < visited@.len(),
            decreases univ.len() - visited@.len() + (if frontier@.len() > 0 { 1int } else { 0int }),
        {
            let ghost v0 = visited@;
            let mut next: Vec<FunctionId> = Vec::new();
            let mut k: usize = 0;
            while k < frontier.len()
                invariant
                    self.wf(),
                    fns == self.fns(),
                    s == start@,
                    t == target@,
                    s != t,
                    univ == keys(all@),
                    forall|x: FnKey, y: FnKey| calls_to(fns, x, y) ==> univ.contains(y),
                    forall|y: FnKey| keys(frontier@).contains(y) <==> #[trigger] at_level(fns, s, y, d as nat),
                    !reach_within(fns, s, t, d as nat),
                    k <= frontier@.len(),
                    d < v0.len(),
                    forall|y: FnKey| keys(v0).contains(y) <==> #[trigger] reach_within(fns, s, y, d as nat),
                    forall|y: FnKey| #[trigger] keys(next@).contains(y) <==> (!reach_within(fns, s, y, d as nat) && exists|q: int|
                        0 <= q < k && calls_to(fns, #[trigger] frontier@[q]@, y)),
                    forall|y: FnKey| #[trigger] keys(visited@).contains(y) <==> (keys(v0).contains(y) || keys(next@).contains(y)),
                    !keys(next@).contains(t),
                    keys(visited@).no_duplicates(),
                    visited@.len() == v0.len() + next@.len(),
                    visited@.len() <= univ.len(),
                    forall|y: FnKey| keys(visited@).contains(y) ==> univ.contains(y),
                decreases frontier@.len() - k,
            {
                let x = &frontier[k];
                proof {
                    assert(keys(frontier@)[k as int] == x@);
                    assert(at_level(fns, s, x@, d as nat));
                }
                match self.find_function(x) {
                    Some(xi) => {
                        let ghost cs = fns[xi as int].calls;
                        proof {
                            assert forall|y: FnKey| calls_to(fns, x@, y) <==> cs.contains(y) by {
                                if calls_to(fns, x@, y) {
                                    let q = choose|q: int| 0 <= q < fns.len() && (#[trigger] fns[q]).id == x@ && fns[q].calls.contains(y);
                                    assert(self.fn_keys()[q] == x@ && self.fn_keys()[xi as int] == x@);
                                }
                            }
                        }
                        let mut j: usize = 0;
                        while j < self.functions[xi].calls.len()
                            invariant
                                self.wf(),
                                fns == self.fns(),
                                s == start@,
                                t == target@,
                                univ == keys(all@),
                                forall|x2: FnKey, y: FnKey| calls_to(fns, x2, y) ==> univ.contains(y),
                                !reach_within(fns, s, t, d as nat),
                                k < frontier@.len(),
                                x == frontier@[k as int],
                                xi < fns.len(),
                                cs == fns[xi as int].calls,
                                forall|y: FnKey| calls_to(fns, x@, y) <==> cs.contains(y),
                                at_level(fns, s, x@, d as nat),
                                j <= cs.len(),
                                d < v0.len(),
                                forall|y: FnKey| keys(v0).contains(y) <==> #[trigger] reach_within(fns, s, y, d as nat),
                                forall|y: FnKey| #[trigger] keys(next@).contains(y) <==> (!reach_within(fns, s, y, d as nat) && (
                                exists|q: int| 0 <= q < k && calls_to(fns, #[trigger] frontier@[q]@, y) || exists|l: int|
                                    0 <= l < j && #[trigger] cs[l] == y)),
                                forall|y: FnKey| #[trigger] keys(visited@).contains(y) <==> (keys(v0).contains(y) || keys(next@).contains(y)),
                                !keys(next@).contains(t),
                                keys(visited@).no_duplicates(),
                                visited@.len() == v0.len() + next@.len(),
                                visited@.len() <= univ.len(),
                                forall|y: FnKey| keys(visited@).contains(y) ==> univ.contains(y),
                            decreases cs.len() - j,
                        {
                            let callee = &self.functions[xi].calls[j];
                            proof {
                                assert(keys(self.functions@[xi as int].calls@)[j as int] == callee@);
                                assert(cs[j as int] == callee@);
                                assert(cs.contains(callee@));
                                assert(calls_to(fns, x@, callee@));
                            }
                            if *callee == *target {
                                proof {
                                    lemma_reach_push(fns, s, x@, t, d as nat);
                                }
                                return Some(d + 1);
                            }
                            if !contains_fn(&visited, callee) {
                                let ghost w0 = visited@;
                                let ghost n0 = next@;
                                visited.push(callee.clone());
                                next.push(callee.clone());
                                proof {
                                    assert(keys(visited@) =~= keys(w0).push(callee@));
                                    assert(keys(next@) =~= keys(n0).push(callee@));
                                    assert(!reach_within(fns, s, callee@, d as nat));
                                    assert(univ.contains(callee@));
                                    broadcast use vstd::seq_lib::lemma_seq_contains_after_push;

                                    assert forall|y: FnKey| keys(visited@).contains(y) implies univ.contains(y) by {
                                        if y != callee@ {
                                            assert(keys(w0).contains(y));
                                        }
                                    }
                                    assert forall|y: FnKey| #[trigger] keys(visited@).contains(y) <==> (keys(v0).contains(y)
                                        || keys(next@).contains(y)) by {}
                                    lemma_nodup_within_len(keys(visited@), univ);
                                    assert forall|y: FnKey| #[trigger] keys(next@).contains(y) <==> (!reach_within(fns, s, y, d as nat) && (
                                        exists|q: int| 0 <= q < k && calls_to(fns, #[trigger] frontier@[q]@, y) || exists|l: int|
                                            0 <= l < j + 1 && #[trigger] cs[l] == y)) by {
                                        if y == callee@ {
                                            assert(cs[j as int] == y);
                                        }
                                    }
                                }
                            } else {
                                proof {
                                    assert forall|y: FnKey| #[trigger] keys(next@).contains(y) <==> (!reach_within(fns, s, y, d as nat) && (
                                        exists|q: int| 0 <= q < k && calls_to(fns, #[trigger] frontier@[q]@, y) || exists|l: int|
                                            0 <= l < j + 1 && #[trigger] cs[l] == y)) by {
                                        if y == callee@ && !reach_within(fns, s, y, d as nat) {
                                            assert(keys(visited@).contains(y));
                                            assert(!keys(v0).contains(y));
                                        }
                                    }
                                }
                            }
                            j = j + 1;
                        }
                        proof {
                            assert forall|y: FnKey| #[trigger] keys(next@).contains(y) <==> (!reach_within(fns, s, y, d as nat) && exists|q: int|
                                0 <= q < k + 1 && calls_to(fns, #[trigger] frontier@[q]@, y)) by {
                                if cs.contains(y) {
                                    let l = choose|l: int| 0 <= l < cs.len() && cs[l] == y;
                                    assert(cs[l] == y);
                                }
                                if exists|l: int| 0 <= l < cs.len() && #[trigger] cs[l] == y {
                                    let l = choose|l: int| 0 <= l < cs.len() && #[trigger] cs[l] == y;
                                    assert(cs.contains(y));
                                    assert(calls_to(fns, frontier@[k as int]@, y));
                                }
                                if exists|q: int| 0 <= q < k + 1 && calls_to(fns, #[trigger] frontier@[q]@, y) {
                                    let q = choose|q: int| 0 <= q < k + 1 && calls_to(fns, #[trigger] frontier@[q]@, y);
                                    if q == k {
                                        assert(cs.contains(y));
                                        let l = choose|l: int| 0 <= l < cs.len() && cs[l] == y;
                                        assert(cs[l] == y);
                                    }
                                }
                            }
                        }
                    },
                    None => {
                        proof {
                            assert forall|y: FnKey| !calls_to(fns, x@, y) by {
                                if calls_to(fns, x@, y) {
                                    let q = choose|q: int| 0 <= q < fns.len() && (#[trigger] fns[q]).id == x@ && fns[q].calls.contains(y);
                                    assert(self.fn_keys()[q] == x@);
                                }
                            }
                            assert forall|y: FnKey| #[trigger] keys(next@).contains(y) <==> (!reach_within(fns, s, y, d as nat) && exists|q: int|
                                0 <= q < k + 1 && calls_to(fns, #[trigger] frontier@[q]@, y)) by {
                                if exists|q: int| 0 <= q < k + 1 && calls_to(fns, #[trigger] frontier@[q]@, y) {
                                    let q = choose|q: int| 0 <= q < k + 1 && calls_to(fns, #[trigger] frontier@[q]@, y);
                                    assert(q != k);
                                }
                            }
                        }
                    },
                }
                k = k + 1;
            }
            proof {
                let d1 = (d + 1) as nat;
                assert forall|y: FnKey| keys(next@).contains(y) <==> #[trigger] at_level(fns, s, y, d1) by {
                    if keys(next@).contains(y) {
                        let q = choose|q: int| 0 <= q < frontier@.len() && calls_to(fns, #[trigger] frontier@[q]@, y);
                        assert(keys(frontier@)[q] == frontier@[q]@);
                        assert(keys(frontier@).contains(frontier@[q]@));
                        assert(at_level(fns, s, frontier@[q]@, d as nat));
                        lemma_reach_push(fns, s, frontier@[q]@, y, d as nat);
                    }
                    if at_level(fns, s, y, d1) {
                        assert(!reach_within(fns, s, y, d as nat));
                        let x = lemma_reach_last(fns, s, y, d as nat);
                        if d > 0 && reach_within(fns, s, x, (d - 1) as nat) {
                            lemma_reach_push(fns, s, x, y, (d - 1) as nat);
                        }
                        assert(at_level(fns, s, x, d as nat));
                        assert(keys(frontier@).contains(x));
                        let q = choose|q: int| 0 <= q < keys(frontier@).len() && keys(frontier@)[q] == x;
                        assert(calls_to(fns, frontier@[q]@, y));
                    }
                }
                assert forall|y: FnKey| keys(visited@).contains(y) <==> #[trigger] reach_within(fns, s, y, d1) by {
                    if reach_within(fns, s, y, d as nat) {
                        lemma_reach_monotone(fns, s, y, d as nat, d1);
                    }
                    if reach_within(fns, s, y, d1) && !reach_within(fns, s, y, d as nat) {
                        assert(at_level(fns, s, y, d1));
                    }
                    if keys(next@).contains(y) {
                        assert(at_level(fns, s, y, d1));
                    }
                }
                if reach_within(fns, s, t, d1) {
                    assert(at_level(fns, s, t, d1));
                }
            }
            let vlen = visited.len();
            assert(d < vlen);
            frontier = next;
            d = d + 1;
        }
        proof {
            assert(d >= 1);
            assert forall|y: FnKey| #[trigger] reach_within(fns, s, y, d as nat) implies reach_within(
                fns,
                s,
                y,
                (d - 1) as nat,
            ) by {
                if !reach_within(fns, s, y, (d - 1) as nat) {
                    assert(at_level(fns, s, y, d as nat));
                    assert(keys(frontier@).contains(y));
                }
            }
            assert forall|e: nat| !reach_within(fns, s, t, e) by {
                if e <= d {
                    if reach_within(fns, s, t, e) {
                        lemma_reach_monotone(fns, s, t, e, d as nat);
                    }
                } else {
                    lemma_reach_stable(fns, s, d as nat, (e - d) as nat);
                    if reach_within(fns, s, t, e) {
                        assert(reach_within(fns, s, t, d as nat + (e - d) as nat));
                        lemma_reach_monotone(fns, s, t, (d - 1) as nat, d as nat);
                    }
                }
            }
        }
        None
    }
}

} // verus!
