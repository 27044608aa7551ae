//! Spatial analysis of the module graph: which modules are linked and how
//! strongly, how many connected components they form, which modules bridge
//! the two sides of a partition, which modules would sit better on the other
//! side, and which imports run in cycles.
//!
//! Weights are counted in half units: an import between two modules weighs
//! 2, a call from a function of one module to a function of another weighs 1.
use vstd::prelude::*;

use crate::code_graph::{keys, paths, CodeGraph, FnKey, ModuleView, NodeView};
use crate::ranking::{all_rank_ok, is_ranked, is_top, min_len, top_ranked, Ranked};
use crate::spectral_analysis::{index_in, lemma_index_in};
use crate::FileId;

verus! {

/// One contribution to the weight between two modules, in half units.
#[derive(Clone, Copy, PartialEq, Eq, Structural, Debug)]
pub struct ModuleLink {
    /// Index of the module the import or call starts in.
    pub from: usize,
    /// Index of the module it leads to.
    pub to: usize,
    /// 2 for an import, 1 for a call.
    pub half_weight: u64,
}

/// The files of the modules, in order.
pub open spec fn files_of(mods: Seq<ModuleView>) -> Seq<Seq<char>> {
    mods.map_values(|m: ModuleView| m.file)
}

/// Whether `f` is the file of a module.
pub open spec fn is_module_file(files: Seq<Seq<char>>) -> spec_fn(Seq<char>) -> bool {
    |f: Seq<char>| files.contains(f)
}

/// The links that module `i` contributes by its imports of registered modules.
pub open spec fn import_row(files: Seq<Seq<char>>, i: int, imports: Seq<Seq<char>>) -> Seq<ModuleLink> {
    imports.filter(is_module_file(files)).map_values(
        |f: Seq<char>| ModuleLink { from: i as usize, to: index_in(files, f) as usize, half_weight: 2 },
    )
}

/// The links of the imports of the first `k` modules.
pub open spec fn import_links(mods: Seq<ModuleView>, k: int) -> Seq<ModuleLink>
    decreases k,
{
    if k <= 0 || k > mods.len() {
        Seq::empty()
    } else {
        import_links(mods, k - 1) + import_row(files_of(mods), k - 1, mods[k - 1].imports)
    }
}

/// Whether the call from node `n` to `c` crosses from one registered module
/// into another.
pub open spec fn crosses(files: Seq<Seq<char>>, n: NodeView) -> spec_fn(FnKey) -> bool {
    |c: FnKey| c.0 != n.id.0 && files.contains(n.id.0) && files.contains(c.0)
}

/// The links that the calls of node `n` contribute.
pub open spec fn call_row(files: Seq<Seq<char>>, n: NodeView) -> Seq<ModuleLink> {
    n.calls.filter(crosses(files, n)).map_values(
        |c: FnKey|
            ModuleLink {
                from: index_in(files, n.id.0) as usize,
                to: index_in(files, c.0) as usize,
                half_weight: 1,
            },
    )
}

/// The links of the calls of the first `k` nodes.
pub open spec fn call_links(files: Seq<Seq<char>>, fns: Seq<NodeView>, k: int) -> Seq<ModuleLink>
    decreases k,
{
    if k <= 0 || k > fns.len() {
        Seq::empty()
    } else {
        call_links(files, fns, k - 1) + call_row(files, fns[k - 1])
    }
}

/// Every link of the graph: those of the imports, module by module, then
/// those of the cross-module calls, function by function.
pub open spec fn links_of(mods: Seq<ModuleView>, fns: Seq<NodeView>) -> Seq<ModuleLink> {
    import_links(mods, mods.len() as int) + call_links(files_of(mods), fns, fns.len() as int)
}

/// The module links of a graph.
pub fn module_links(graph: &CodeGraph) -> (r: Vec<ModuleLink>)
    requires
        graph.wf(),
    ensures
        r@ == links_of(graph.mods(), graph.fns()),
        forall|k: int| 0 <= k < r@.len() ==> (#[trigger] r@[k]).from < graph.mods().len() && r@[k].to
            < graph.mods().len(),
{
    let ghost mods = graph.mods();
    let ghost fns = graph.fns();
    let ghost files = files_of(mods);
    proof {
        assert(files =~= graph.mod_files());
    }
    let mut r: Vec<ModuleLink> = Vec::new();
    let mut i: usize = 0;
    while i < graph.modules.len()
        invariant
            graph.wf(),
            mods == graph.mods(),
            files == graph.mod_files(),
            i <= mods.len(),
            r@ == import_links(mods, i as int),
            forall|k: int| 0 <= k < r@.len() ==> (#[trigger] r@[k]).from < mods.len() && r@[k].to < mods.len(),
        decreases mods.len() - i,
    {
        let imports = &graph.modules[i].imports;
        let ghost imps = mods[i as int].imports;
        let ghost r0 = r@;
        proof {
            assert(imps == paths(imports@));
        }
        let mut j: usize = 0;
        while j < imports.len()
            invariant
                graph.wf(),
                mods == graph.mods(),
                files == graph.mod_files(),
                i < mods.len(),
                imps == paths(imports@),
                j <= imps.len(),
                r@ == r0 + import_row(files, i as int, imps.take(j as int)),
                forall|k: int| 0 <= k < r@.len() ==> (#[trigger] r@[k]).from < mods.len() && r@[k].to < mods.len(),
            decreases imps.len() - j,
        {
            let f = &imports[j];
            proof {
                assert(imps[j as int] == f@);
                assert(imps.take(j + 1) =~= imps.take(j as int).push(f@));
                imps.take(j as int).lemma_filter_push(f@, is_module_file(files));
            }
            let ghost rr = r@;
            match graph.find_module(f) {
                Some(t) => {
                    proof {
                        assert(files[t as int] == f@);
                        lemma_index_in(files, t as int);
                    }
                    r.push(ModuleLink { from: i, to: t, half_weight: 2 });
                    proof {
                        assert(r@ =~= r0 + import_row(files, i as int, imps.take(j + 1)));
                    }
                },
                None => {
                    proof {
                        assert(r@ =~= r0 + import_row(files, i as int, imps.take(j + 1)));
                    }
                },
            }
            j = j + 1;
        }
        proof {
            assert(imps.take(imps.len() as int) =~= imps);
            assert(import_links(mods, i + 1) == import_links(mods, i as int) + import_row(
                files_of(mods),
                i as int,
                mods[i as int].imports,
            ));
        }
        i = i + 1;
    }
    let ghost imports_part = r@;
    let mut i: usize = 0;
    while i < graph.functions.len()
        invariant
            graph.wf(),
            mods == graph.mods(),
            fns == graph.fns(),
            files == graph.mod_files(),
            imports_part == import_links(mods, mods.len() as int),
            i <= fns.len(),
            r@ == imports_part + call_links(files, fns, i as int),
            forall|k: int| 0 <= k < r@.len() ==> (#[trigger] r@[k]).from < mods.len() && r@[k].to < mods.len(),
        decreases fns.len() - i,
    {
        let node = &graph.functions[i];
        let ghost n = fns[i as int];
        let ghost r0 = r@;
        proof {
            assert(n == node@);
            assert(keys(node.calls@) == n.calls);
        }
        let from = graph.find_module(&node.id.file);
        let mut j: usize = 0;
        while j < node.calls.len()
            invariant
                graph.wf(),
                mods == graph.mods(),
                files == graph.mod_files(),
                n == node@,
                j <= n.calls.len(),
                from is Some ==> from->0 < mods.len() && files[from->0 as int] == n.id.0,
                from is None ==> !files.contains(n.id.0),
                r@ == r0 + n.calls.take(j as int).filter(crosses(files, n)).map_values(
                    |c: FnKey|
                        ModuleLink {
                            from: index_in(files, n.id.0) as usize,
                            to: index_in(files, c.0) as usize,
                            half_weight: 1,
                        },
                ),
                forall|k: int| 0 <= k < r@.len() ==> (#[trigger] r@[k]).from < mods.len() && r@[k].to < mods.len(),
            decreases n.calls.len() - j,
        {
            let callee = &node.calls[j];
            proof {
                assert(n.calls[j as int] == callee@);
                assert(n.calls.take(j + 1) =~= n.calls.take(j as int).push(callee@));
                n.calls.take(j as int).lemma_filter_push(callee@, crosses(files, n));
            }
            if callee.file != node.id.file {
                match from {
                    Some(a) => match graph.find_module(&callee.file) {
                        Some(b) => {
                            proof {
                                assert(files[b as int] == callee@.0);
                                lemma_index_in(files, a as int);
                                lemma_index_in(files, b as int);
                            }
                            r.push(ModuleLink { from: a, to: b, half_weight: 1 });
                        },
                        None => {},
                    },
                    None => {},
                }
            }
            proof {
                assert(r@ =~= r0 + n.calls.take(j + 1).filter(crosses(files, n)).map_values(
                    |c: FnKey|
                        ModuleLink {
                            from: index_in(files, n.id.0) as usize,
                            to: index_in(files, c.0) as usize,
                            half_weight: 1,
                        },
                ));
            }
            j = j + 1;
        }
        proof {
            assert(n.calls.take(n.calls.len() as int) =~= n.calls);
            assert(r@ =~= imports_part + call_links(files, fns, i + 1));
        }
        i = i + 1;
    }
    r
}

// ---------------------------------------------------------------------------
// Linked modules and connected components
// ---------------------------------------------------------------------------

/// Whether some link joins modules `i` and `j`, in either direction.
pub open spec fn linked(links: Seq<ModuleLink>, i: int, j: int) -> bool {
    exists|k: int|
        0 <= k < links.len() && ((#[trigger] links[k]).from == i && links[k].to == j || links[k].from == j
            && links[k].to == i)
}

/// Whether `m` is an `n` by `n` matrix.
pub open spec fn is_square(m: Seq<Vec<bool>>, n: int) -> bool {
    &&& m.len() == n
    &&& forall|i: int| 0 <= i < n ==> (#[trigger] m[i])@.len() == n
}

/// The `n` by `n` matrix of which modules are linked.
pub fn link_matrix(n: usize, links: &Vec<ModuleLink>) -> (m: Vec<Vec<bool>>)
    requires
        forall|k: int| 0 <= k < links@.len() ==> (#[trigger] links@[k]).from < n && links@[k].to < n,
    ensures
        is_square(m@, n as int),
        forall|i: int, j: int| 0 <= i < n && 0 <= j < n ==> (#[trigger] m@[i]@[j] <==> linked(links@, i, j)),
{
    let mut m: Vec<Vec<bool>> = Vec::new();
    let mut i: usize = 0;
    while i < n
        invariant
            i <= n,
            m@.len() == i,
            forall|k: int| 0 <= k < links@.len() ==> (#[trigger] links@[k]).from < n && links@[k].to < n,
            forall|a: int| 0 <= a < i ==> (#[trigger] m@[a])@.len() == n,
            forall|a: int, j: int| 0 <= a < i && 0 <= j < n ==> (#[trigger] m@[a]@[j] <==> linked(links@, a, j)),
        decreases n - i,
    {
        let mut row: Vec<bool> = Vec::new();
        let mut j: usize = 0;
        while j < n
            invariant
                j <= n,
                row@.len() == j,
                forall|q: int| 0 <= q < j ==> !(#[trigger] row@[q]),
            decreases n - j,
        {
            row.push(false);
            j = j + 1;
        }
        let mut k: usize = 0;
        while k < links.len()
            invariant
                i < n,
                row@.len() == n,
                k <= links@.len(),
                forall|q: int| 0 <= q < links@.len() ==> (#[trigger] links@[q]).from < n && links@[q].to < n,
                forall|j: int| 0 <= j < n ==> (#[trigger] row@[j] <==> exists|q: int|
                    0 <= q < k && ((#[trigger] links@[q]).from == i && links@[q].to == j || links@[q].from == j
                        && links@[q].to == i)),
            decreases links@.len() - k,
        {
            let e = links[k];
            if e.from == i {
                row.set(e.to, true);
            }
            if e.to == i {
                row.set(e.from, true);
            }
            proof {
                assert forall|j: int| 0 <= j < n implies (#[trigger] row@[j] <==> exists|q: int|
                    0 <= q < k + 1 && ((#[trigger] links@[q]).from == i && links@[q].to == j || links@[q].from
                        == j && links@[q].to == i)) by {
                    if (e.from == i && e.to == j) || (e.from == j && e.to == i) {
                        assert(links@[k as int] == e);
                    }
                }
            }
            k = k + 1;
        }
        m.push(row);
        i = i + 1;
    }
    m
}

/// Whether `s` is closed under the links of `m`: it holds every neighbor of
/// each of its members.
pub open spec fn closed(m: Seq<Vec<bool>>, s: Set<int>) -> bool {
    forall|u: int, v: int|
        #![trigger s.contains(u), m[u]@[v]]
        s.contains(u) && 0 <= u < m.len() && 0 <= v < m[u]@.len() && m[u]@[v] ==> s.contains(v)
}

/// Whether `b` lies in the connected component of `a`: every set closed
/// under the links that holds `a` holds `b`.
pub open spec fn connected_to(m: Seq<Vec<bool>>, a: int, b: int) -> bool {
    forall|s: Set<int>| #[trigger] closed(m, s) && s.contains(a) ==> s.contains(b)
}

/// Whether `i` is the first module of its connected component.
pub open spec fn leads_component(m: Seq<Vec<bool>>, i: int) -> bool {
    forall|j: int| 0 <= j < i ==> !connected_to(m, j, i)
}

/// How many of the first `k` modules lead their connected component.
pub open spec fn count_leaders(m: Seq<Vec<bool>>, k: int) -> nat
    decreases k,
{
    if k <= 0 {
        0
    } else {
        count_leaders(m, k - 1) + if leads_component(m, k - 1) {
            1nat
        } else {
            0nat
        }
    }
}

/// The number of connected components of `m`: how many of its modules lead
/// their component.
pub open spec fn component_count_of(m: Seq<Vec<bool>>) -> nat {
    count_leaders(m, m.len() as int)
}

/// The members of a visited-flag vector.
pub open spec fn flagged(visited: Seq<bool>) -> Set<int> {
    Set::new(|v: int| 0 <= v < visited.len() && visited[v])
}

/// Count the connected components of the graph given by `m`, by a
/// breadth-first search from each module that no earlier search reached.
pub fn connected_components_count(m: &Vec<Vec<bool>>) -> (c: usize)
    requires
        is_square(m@, m@.len() as int),
    ensures
        c == component_count_of(m@),
{
    let n = m.len();
    let ghost mm = m@;
    let mut visited: Vec<bool> = Vec::new();
    let mut z: usize = 0;
    while z < n
        invariant
            z <= n,
            visited@.len() == z,
            forall|q: int| 0 <= q < z ==> !(#[trigger] visited@[q]),
        decreases n - z,
    {
        visited.push(false);
        z = z + 1;
    }
    proof {
        assert(closed(mm, flagged(visited@)));
    }
    let mut components: usize = 0;
    let mut start: usize = 0;
    while start < n
        invariant
            mm == m@,
            n == mm.len(),
            is_square(mm, n as int),
            start <= n,
            visited@.len() == n,
            forall|j: int| 0 <= j < start ==> #[trigger] visited@[j],
            closed(mm, flagged(visited@)),
            forall|v: int|
                start <= v < n && #[trigger] visited@[v] ==> exists|r: int| 0 <= r < start && connected_to(mm, r, v),
            components == count_leaders(mm, start as int),
            components <= start,
        decreases n - start,
    {
        if visited[start] {
            proof {
                let r = choose|r: int| 0 <= r < start && connected_to(mm, r, start as int);
                assert(!leads_component(mm, start as int));
            }
            start = start + 1;
            continue;
        }
        proof {
            assert forall|j: int| 0 <= j < start implies !connected_to(mm, j, start as int) by {
                assert(flagged(visited@).contains(j));
                assert(!flagged(visited@).contains(start as int));
            }
            assert(leads_component(mm, start as int));
        }
        let ghost v0 = visited@;
        components = components + 1;
        let mut queue: Vec<usize> = Vec::new();
        queue.push(start);
        visited.set(start, true);
        let mut h: usize = 0;
        proof {
            assert(queue@[0] == start);
            assert forall|s: Set<int>| #[trigger] closed(mm, s) && s.contains(start as int) implies s.contains(
                start as int,
            ) by {}
        }
        while h < queue.len()
            invariant
                mm == m@,
                n == mm.len(),
                is_square(mm, n as int),
                start < n,
                visited@.len() == n,
                closed(mm, flagged(v0)),
                v0.len() == n,
                !v0[start as int],
                forall|j: int| 0 <= j < start ==> #[trigger] v0[j],
                forall|v: int|
                    start <= v < n && #[trigger] v0[v] ==> exists|r: int| 0 <= r < start && connected_to(mm, r, v),
                h <= queue@.len(),
                queue@.len() <= n,
                visited@[start as int],
                forall|p: int| 0 <= p < queue@.len() ==> (#[trigger] queue@[p]) < n && visited@[queue@[p] as int]
                    && !v0[queue@[p] as int] && connected_to(mm, start as int, queue@[p] as int),
                forall|v: int| 0 <= v < n && #[trigger] visited@[v] ==> v0[v] || queue@.contains(v as usize),
                forall|v: int| 0 <= v < n && #[trigger] v0[v] ==> visited@[v],
                forall|p: int, u: int|
                    0 <= p < h && 0 <= u < n && #[trigger] mm[queue@[p] as int]@[u] ==> #[trigger] visited@[u],
                queue@.no_duplicates(),
            decreases n - h,
        {
            let v = queue[h];
            let mut u: usize = 0;
            while u < n
                invariant
                    mm == m@,
                    n == mm.len(),
                    is_square(mm, n as int),
                    start < n,
                    visited@.len() == n,
                    v0.len() == n,
                    h < queue@.len(),
                    v == queue@[h as int],
                    v < n,
                    u <= n,
                    queue@.len() <= n,
                    visited@[start as int],
                    forall|p: int| 0 <= p < queue@.len() ==> (#[trigger] queue@[p]) < n && visited@[queue@[p] as int]
                        && !v0[queue@[p] as int] && connected_to(mm, start as int, queue@[p] as int),
                    forall|w: int| 0 <= w < n && #[trigger] visited@[w] ==> v0[w] || queue@.contains(w as usize),
                    forall|w: int| 0 <= w < n && #[trigger] v0[w] ==> visited@[w],
                    forall|p: int, w: int|
                        0 <= p < h && 0 <= w < n && #[trigger] mm[queue@[p] as int]@[w] ==> #[trigger] visited@[w],
                    forall|w: int| 0 <= w < u && #[trigger] mm[v as int]@[w] ==> visited@[w],
                    queue@.no_duplicates(),
                decreases n - u,
            {
                if m[v][u] && !visited[u] {
                    proof {
                        assert(!v0[u as int]);
                        assert(!queue@.contains(u));
                        assert forall|s: Set<int>| #[trigger] closed(mm, s) && s.contains(start as int) implies s.contains(
                            u as int,
                        ) by {
                            assert(connected_to(mm, start as int, v as int));
                            assert(s.contains(v as int));
                            assert(mm[v as int]@[u as int]);
                        }
                        let fl = flagged(visited@);
                        assert forall|p: int| 0 <= p < queue@.len() implies fl.contains(queue@[p] as int) by {}
                        lemma_flags_bound(visited@, queue@);
                    }
                    let ghost q0 = queue@;
                    visited.set(u, true);
                    queue.push(u);
                    proof {
                        assert forall|w: int| 0 <= w < n && #[trigger] visited@[w] implies v0[w] || queue@.contains(
                            w as usize,
                        ) by {
                            if w == u {
                                assert(queue@[q0.len() as int] == u);
                            } else if !v0[w] {
                                let p = choose|p: int| 0 <= p < q0.len() && q0[p] == w as usize;
                                assert(queue@[p] == w as usize);
                            }
                        }
                    }
                }
                u = u + 1;
            }
            h = h + 1;
        }
        proof {
            assert forall|u: int, w: int|
                #![trigger flagged(visited@).contains(u), mm[u]@[w]]
                flagged(visited@).contains(u) && 0 <= u < mm.len() && 0 <= w < mm[u]@.len() && mm[u]@[w] implies flagged(
                visited@,
            ).contains(w) by {
                if v0[u] {
                    assert(flagged(v0).contains(u));
                    assert(flagged(v0).contains(w));
                } else {
                    assert(queue@.contains(u as usize));
                    let p = choose|p: int| 0 <= p < queue@.len() && queue@[p] == u as usize;
                    assert(mm[queue@[p] as int]@[w]);
                }
            }
            assert forall|v: int| start + 1 <= v < n && #[trigger] visited@[v] implies exists|r: int|
                0 <= r < start + 1 && connected_to(mm, r, v) by {
                if v0[v] {
                    let r = choose|r: int| 0 <= r < start && connected_to(mm, r, v);
                } else {
                    let p = choose|p: int| 0 <= p < queue@.len() && queue@[p] == v as usize;
                    assert(connected_to(mm, start as int, queue@[p] as int));
                }
            }
            assert(visited@[start as int]);
            assert forall|j: int| 0 <= j < start + 1 implies #[trigger] visited@[j] by {
                if j < start {
                    assert(v0[j]);
                }
            }
        }
        start = start + 1;
    }
    components
}

/// At most `visited.len()` distinct modules can be flagged.
proof fn lemma_flags_bound(visited: Seq<bool>, queue: Seq<usize>)
    requires
        queue.no_duplicates(),
        forall|p: int| 0 <= p < queue.len() ==> (#[trigger] queue[p]) < visited.len() && visited[queue[p] as int],
        exists|u: int| 0 <= u < visited.len() && !visited[u],
    ensures
        queue.len() < visited.len(),
{
    let u = choose|u: int| 0 <= u < visited.len() && !visited[u];
    let qs = queue.map_values(|x: usize| x as int);
    assert forall|i: int, j: int| 0 <= i < j < qs.len() implies qs[i] != qs[j] by {
        assert(queue[i] != queue[j]);
    }
    assert(qs.no_duplicates());
    qs.unique_seq_to_set();
    let full = Set::new(|x: int| 0 <= x < visited.len() && x != u);
    assert(qs.to_set().subset_of(full));
    assert(full =~= vstd::set_lib::set_int_range(0, visited.len() as int).remove(u));
    vstd::set_lib::lemma_int_range(0, visited.len() as int);
    vstd::set_lib::lemma_len_subset(qs.to_set(), full);
}

/// The number of connected components of the module graph: none for a
/// graph without modules, one for a single module.
pub fn component_count(graph: &CodeGraph) -> (c: usize)
    requires
        graph.wf(),
    ensures
        graph.mods().len() == 0 ==> c == 0,
        graph.mods().len() == 1 ==> c == 1,
        exists|m: Seq<Vec<bool>>|
            #![trigger component_count_of(m)]
            is_square(m, graph.mods().len() as int) && (forall|i: int, j: int|
                0 <= i < graph.mods().len() && 0 <= j < graph.mods().len() ==> (#[trigger] m[i]@[j] <==> linked(
                    links_of(graph.mods(), graph.fns()),
                    i,
                    j,
                ))) && c == component_count_of(m),
{
    let n = graph.modules.len();
    let links = module_links(graph);
    let m = link_matrix(n, &links);
    let c = connected_components_count(&m);
    proof {
        if n == 1 {
            assert(count_leaders(m@, 0) == 0);
            assert(leads_component(m@, 0));
            assert(count_leaders(m@, 1) == 1);
        }
    }
    c
}

// ---------------------------------------------------------------------------
// Bridges and reorganization suggestions
// ---------------------------------------------------------------------------

/// How the links of a module divide between the two sides of a partition:
/// `other` of its `total` count lie on the other side. Its score is
/// `other / total`.
#[derive(Clone, Copy, PartialEq, Eq, Structural, Debug)]
pub struct SideCount {
    /// Index of the module.
    pub module: usize,
    /// Links to modules on the other side.
    pub other: u64,
    /// All links counted.
    pub total: u64,
}

impl Ranked for SideCount {
    open spec fn rank_ok(self) -> bool {
        self.total > 0
    }

    /// A higher score comes first.
    open spec fn ranks_le(self, other: Self) -> bool {
        self.other * other.total >= other.other * self.total
    }

    fn ranks_before(&self, other: &Self) -> (b: bool) {
        let (a, b, c, d) = (self.other as u128, other.total as u128, other.other as u128, self.total as u128);
        proof {
            assert(a * b <= 0xffff_ffff_ffff_ffff * 0xffff_ffff_ffff_ffff) by (nonlinear_arith)
                requires
                    a <= 0xffff_ffff_ffff_ffff,
                    b <= 0xffff_ffff_ffff_ffff,
                    0 <= a,
                    0 <= b,
            ;
            assert(c * d <= 0xffff_ffff_ffff_ffff * 0xffff_ffff_ffff_ffff) by (nonlinear_arith)
                requires
                    c <= 0xffff_ffff_ffff_ffff,
                    d <= 0xffff_ffff_ffff_ffff,
                    0 <= c,
                    0 <= d,
            ;
        }
        a * b >= c * d
    }

    proof fn lemma_ranks_total(a: Self, b: Self) {
    }

    proof fn lemma_ranks_trans(a: Self, b: Self, c: Self) {
        let (ao, at, bo, bt, co, ct) = (a.other as int, a.total as int, b.other as int, b.total as int, c.other as int, c.total as int);
        assert(ao * ct >= co * at) by (nonlinear_arith)
            requires
                ao * bt >= bo * at,
                bo * ct >= co * bt,
                at > 0,
                bt > 0,
                ct > 0,
                ao >= 0,
                bo >= 0,
                co >= 0,
        {
            assert(ao * bt * ct >= bo * at * ct);
            assert(bo * ct * at >= co * bt * at);
            assert(ao * ct * bt >= co * at * bt);
        }
    }
}

/// How many of the first `k` modules other than `i` are linked to `i` in
/// `m` and lie on the same side as `i` (`same`), or on the other side.
pub open spec fn side_count(m: Seq<Vec<bool>>, side: Seq<bool>, i: int, same: bool, k: int) -> nat
    decreases k,
{
    if k <= 0 {
        0
    } else {
        side_count(m, side, i, same, k - 1) + if k - 1 != i && m[i]@[k - 1] && (side[k - 1] == side[i]) == same {
            1nat
        } else {
            0nat
        }
    }
}

/// The bridge count of module `i`: the total counts the module itself and
/// each linked module once.
pub open spec fn bridge_of(m: Seq<Vec<bool>>, side: Seq<bool>, i: int) -> SideCount {
    let same = side_count(m, side, i, true, m.len() as int);
    let other = side_count(m, side, i, false, m.len() as int);
    SideCount { module: i as usize, other: other as u64, total: (1 + same + other) as u64 }
}

/// The modules `j` other than `i` that `m` links to `i`, and that lie on the
/// other side of the partition than `i` when `across`, or on either side
/// when not.
pub open spec fn linked_modules(m: Seq<Vec<bool>>, side: Seq<bool>, i: int, across: bool) -> Seq<int> {
    Seq::new(m.len(), |j: int| j).filter(linked_to(m, side, i, across))
}

/// [`linked_modules`] as a predicate on module indices.
pub open spec fn linked_to(m: Seq<Vec<bool>>, side: Seq<bool>, i: int, across: bool) -> spec_fn(int) -> bool {
    |j: int| j != i && m[i]@[j] && (!across || side[j] != side[i])
}

proof fn lemma_side_count_filter(m: Seq<Vec<bool>>, side: Seq<bool>, i: int, same: bool, k: int)
    requires
        0 <= k <= m.len(),
    ensures
        side_count(m, side, i, same, k) == Seq::new(k as nat, |j: int| j).filter(
            |j: int| j != i && m[i]@[j] && (side[j] == side[i]) == same,
        ).len(),
    decreases k,
{
    let p = |j: int| j != i && m[i]@[j] && (side[j] == side[i]) == same;
    if k > 0 {
        lemma_side_count_filter(m, side, i, same, k - 1);
        let pre = Seq::new((k - 1) as nat, |j: int| j);
        assert(Seq::new(k as nat, |j: int| j) =~= pre.push(k - 1));
        pre.lemma_filter_len_push(p, k - 1);
    } else {
        assert(Seq::new(0, |j: int| j).filter(p) =~= Seq::<int>::empty());
    }
}

proof fn lemma_filter_split(s: Seq<int>, p: spec_fn(int) -> bool, q: spec_fn(int) -> bool, r: spec_fn(int) -> bool)
    requires
        forall|j: int| #[trigger] r(j) == (p(j) || q(j)),
        forall|j: int| !(#[trigger] p(j) && q(j)),
    ensures
        s.filter(r).len() == s.filter(p).len() + s.filter(q).len(),
    decreases s.len(),
{
    if s.len() > 0 {
        let pre = s.drop_last();
        lemma_filter_split(pre, p, q, r);
        assert(s =~= pre.push(s.last()));
        pre.lemma_filter_len_push(p, s.last());
        pre.lemma_filter_len_push(q, s.last());
        pre.lemma_filter_len_push(r, s.last());
    } else {
        assert(s.filter(p) =~= Seq::<int>::empty());
        assert(s.filter(q) =~= Seq::<int>::empty());
        assert(s.filter(r) =~= Seq::<int>::empty());
    }
}

/// What a bridge count counts: `other` is the number of modules linked to
/// `i` on the other side of the partition, and `total` is one (the module
/// itself) plus the number of all modules linked to `i`.
pub proof fn lemma_bridge_count_meaning(m: Seq<Vec<bool>>, side: Seq<bool>, i: int)
    requires
        m.len() < 0x1000_0000_0000_0000,
    ensures
        bridge_of(m, side, i).other == linked_modules(m, side, i, true).len(),
        bridge_of(m, side, i).total == 1 + linked_modules(m, side, i, false).len(),
{
    let n = m.len() as int;
    let all = Seq::new(n as nat, |j: int| j);
    lemma_side_count_filter(m, side, i, true, n);
    lemma_side_count_filter(m, side, i, false, n);
    let ps = |j: int| j != i && m[i]@[j] && (side[j] == side[i]) == true;
    let po = |j: int| j != i && m[i]@[j] && (side[j] == side[i]) == false;
    let pa = linked_to(m, side, i, true);
    let pl = linked_to(m, side, i, false);
    assert(po =~= pa);
    lemma_filter_split(all, ps, po, pl);
    all.lemma_filter_len(ps);
    all.lemma_filter_len(po);
}

/// Whether a count has a link to the other side.
pub open spec fn crosses_sides() -> spec_fn(SideCount) -> bool {
    |c: SideCount| c.other > 0
}

/// The bridge counts of the modules with a link to the other side, in
/// module order.
pub open spec fn bridge_candidates(m: Seq<Vec<bool>>, side: Seq<bool>) -> Seq<SideCount> {
    Seq::new(m.len(), |i: int| bridge_of(m, side, i)).filter(crosses_sides())
}

/// The bridge counts of all modules with a link to the other side of the
/// partition `side`, in module order.
pub fn bridge_counts(m: &Vec<Vec<bool>>, side: &Vec<bool>) -> (r: Vec<SideCount>)
    requires
        is_square(m@, m@.len() as int),
        side@.len() == m@.len(),
    ensures
        r@ == bridge_candidates(m@, side@),
        all_rank_ok(r@),
{
    let n = m.len();
    let ghost all = Seq::new(n as nat, |i: int| bridge_of(m@, side@, i));
    let mut r: Vec<SideCount> = Vec::new();
    let mut i: usize = 0;
    while i < n
        invariant
            n == m@.len(),
            is_square(m@, n as int),
            side@.len() == n,
            all == Seq::new(n as nat, |i: int| bridge_of(m@, side@, i)),
            i <= n,
            r@ == all.take(i as int).filter(crosses_sides()),
            all_rank_ok(r@),
        decreases n - i,
    {
        let mut same: u64 = 0;
        let mut other: u64 = 0;
        let mut j: usize = 0;
        while j < n
            invariant
                n == m@.len(),
                is_square(m@, n as int),
                side@.len() == n,
                i < n,
                j <= n,
                same == side_count(m@, side@, i as int, true, j as int),
                other == side_count(m@, side@, i as int, false, j as int),
                same + other + (if i < j {
                    1int
                } else {
                    0int
                }) <= j,
            decreases n - j,
        {
            if j != i && m[i][j] {
                if side[j] == side[i] {
                    same = same + 1;
                } else {
                    other = other + 1;
                }
            }
            j = j + 1;
        }
        let c = SideCount { module: i, other, total: 1 + same + other };
        proof {
            assert(c == all[i as int]);
            assert(all.take(i + 1) =~= all.take(i as int).push(c));
            all.take(i as int).lemma_filter_push(c, crosses_sides());
        }
        if other > 0 {
            r.push(c);
        }
        i = i + 1;
    }
    proof {
        assert(all.take(n as int) =~= all);
    }
    r
}

/// Whether side count `a` scores at least as high as `b`: `a.other / a.total
/// >= b.other / b.total`, compared without division.
pub open spec fn scores_at_least(a: SideCount, b: SideCount) -> bool {
    (a.other as int) * (b.total as int) >= (b.other as int) * (a.total as int)
}

/// The best `k` of a list of side counts are listed highest score first, and
/// each of them scores at least as high as every count that was left out.
pub proof fn lemma_top_scores_descend(r: Seq<SideCount>, c: Seq<SideCount>, k: int)
    requires
        0 <= k,
        is_top(r, c, k),
    ensures
        forall|i: int, j: int| 0 <= i < j < r.len() ==> scores_at_least(#[trigger] r[i], #[trigger] r[j]),
        forall|i: int, x: SideCount|
            0 <= i < r.len() && r.to_multiset().count(x) < c.to_multiset().count(x) ==> #[trigger] scores_at_least(r[i], x),
{
    broadcast use vstd::seq_lib::group_to_multiset_ensures, vstd::multiset::group_multiset_axioms;

    let s = choose|s: Seq<SideCount>|
        #![trigger s.to_multiset()]
        s.to_multiset() == c.to_multiset() && is_ranked(s) && r == s.take(min_len(k, s.len() as int));
    let m = min_len(k, s.len() as int);
    assert(s.to_multiset() == c.to_multiset() && is_ranked(s) && r == s.take(m));
    assert(r.len() == m && m <= s.len());
    assert forall|i: int, j: int| 0 <= i < j < r.len() implies scores_at_least(#[trigger] r[i], #[trigger] r[j]) by {
        assert(r[i] == s.take(m)[i] && r[j] == s.take(m)[j]);
        assert(r[i] == s[i] && r[j] == s[j]);
        assert(s[i].ranks_le(s[j]));
    }
    assert forall|i: int, x: SideCount|
        0 <= i < r.len() && r.to_multiset().count(x) < c.to_multiset().count(x) implies #[trigger] scores_at_least(r[i], x) by {
        let rest = s.skip(m);
        assert(s =~= r + rest);
        vstd::seq_lib::lemma_multiset_commutative(r, rest);
        assert(rest.to_multiset().count(x) > 0);
        assert(rest.contains(x));
        let j = choose|j: int| 0 <= j < rest.len() && rest[j] == x;
        assert(s[m + j] == x);
        assert(r[i] == s.take(m)[i]);
        assert(r[i] == s[i]);
        assert(s[i].ranks_le(s[m + j]));
    }
}

/// The bridge modules: those with a link to the other side of the partition,
/// highest score first, at most 10.
pub fn detect_bridges(m: &Vec<Vec<bool>>, side: &Vec<bool>) -> (r: Vec<SideCount>)
    requires
        is_square(m@, m@.len() as int),
        side@.len() == m@.len(),
    ensures
        is_top(r@, bridge_candidates(m@, side@), 10),
        forall|i: int, j: int| 0 <= i < j < r@.len() ==> scores_at_least(#[trigger] r@[i], #[trigger] r@[j]),
        forall|i: int, x: SideCount|
            0 <= i < r@.len() && r@.to_multiset().count(x) < bridge_candidates(m@, side@).to_multiset().count(x)
                ==> #[trigger] scores_at_least(r@[i], x),
{
    let counts = bridge_counts(m, side);
    let r = top_ranked(counts, 10);
    proof {
        lemma_top_scores_descend(r@, bridge_candidates(m@, side@), 10);
    }
    r
}

/// The side of the module whose file is `f`.
pub open spec fn side_of(files: Seq<Seq<char>>, side: Seq<bool>, f: Seq<char>) -> bool {
    side[index_in(files, f)]
}

/// Whether `f` is a module file on the other side than `s`.
pub open spec fn off_side(files: Seq<Seq<char>>, side: Seq<bool>, s: bool) -> spec_fn(Seq<char>) -> bool {
    |f: Seq<char>| files.contains(f) && side_of(files, side, f) != s
}

/// The modules that module `i` imports and that import it.
pub open spec fn connections(mods: Seq<ModuleView>, i: int) -> Seq<Seq<char>> {
    mods[i].imports + mods[i].imported_by
}

/// How the connections of module `i` divide: of its connections to
/// registered modules, how many lie on the other side.
pub open spec fn move_of(mods: Seq<ModuleView>, side: Seq<bool>, i: int) -> SideCount {
    let files = files_of(mods);
    let conn = connections(mods, i);
    SideCount {
        module: i as usize,
        other: conn.filter(off_side(files, side, side[i])).len() as u64,
        total: conn.filter(is_module_file(files)).len() as u64,
    }
}

/// Whether more than 60% of a module's connections lie on the other side.
pub open spec fn mostly_elsewhere() -> spec_fn(SideCount) -> bool {
    |c: SideCount| 10 * c.other > 6 * c.total
}

/// The modules that would sit better on the other side, in module order.
pub open spec fn move_candidates(mods: Seq<ModuleView>, side: Seq<bool>) -> Seq<SideCount> {
    Seq::new(mods.len(), |i: int| move_of(mods, side, i)).filter(mostly_elsewhere())
}

/// Count, of `v`, the module files and those on the other side than `s`.
fn count_sides(graph: &CodeGraph, side: &Vec<bool>, v: &Vec<FileId>, s: bool) -> (r: (u64, u64))
    requires
        graph.wf(),
        side@.len() == graph.mods().len(),
        v@.len() <= 0x1_0000_0000_0000,
    ensures
        r.0 == paths(v@).filter(off_side(files_of(graph.mods()), side@, s)).len(),
        r.1 == paths(v@).filter(is_module_file(files_of(graph.mods()))).len(),
        r.0 <= r.1,
{
    let ghost files = files_of(graph.mods());
    let ghost pv = paths(v@);
    proof {
        assert(files =~= graph.mod_files());
    }
    let mut other: u64 = 0;
    let mut total: u64 = 0;
    let mut k: usize = 0;
    while k < v.len()
        invariant
            graph.wf(),
            files == graph.mod_files(),
            side@.len() == graph.mods().len(),
            pv == paths(v@),
            k <= pv.len(),
            pv.len() <= 0x1_0000_0000_0000,
            other == pv.take(k as int).filter(off_side(files, side@, s)).len(),
            total == pv.take(k as int).filter(is_module_file(files)).len(),
            other <= total,
            total <= k,
        decreases pv.len() - k,
    {
        let f = &v[k];
        proof {
            assert(pv[k as int] == f@);
            assert(pv.take(k + 1) =~= pv.take(k as int).push(f@));
            pv.take(k as int).lemma_filter_push(f@, off_side(files, side@, s));
            pv.take(k as int).lemma_filter_push(f@, is_module_file(files));
        }
        match graph.find_module(f) {
            Some(t) => {
                proof {
                    assert(files[t as int] == f@);
                    lemma_index_in(files, t as int);
                }
                total = total + 1;
                if side[t] != s {
                    other = other + 1;
                }
            },
            None => {},
        }
        k = k + 1;
    }
    proof {
        assert(pv.take(pv.len() as int) =~= pv);
    }
    (other, total)
}

/// The move counts of all modules of which more than 60% of the connections
/// (imports and importers) lie on the other side of the partition `side`,
/// in module order.
pub fn move_counts(graph: &CodeGraph, side: &Vec<bool>) -> (r: Vec<SideCount>)
    requires
        graph.wf(),
        side@.len() == graph.mods().len(),
        forall|i: int| 0 <= i < graph.mods().len() ==> (#[trigger] graph.mods()[i]).imports.len() <= 0x1_0000_0000_0000
            && graph.mods()[i].imported_by.len() <= 0x1_0000_0000_0000,
    ensures
        r@ == move_candidates(graph.mods(), side@),
        all_rank_ok(r@),
{
    let ghost mods = graph.mods();
    let ghost all = Seq::new(mods.len(), |i: int| move_of(mods, side@, i));
    let mut r: Vec<SideCount> = Vec::new();
    let mut i: usize = 0;
    while i < graph.modules.len()
        invariant
            graph.wf(),
            mods == graph.mods(),
            side@.len() == mods.len(),
            forall|i: int| 0 <= i < mods.len() ==> (#[trigger] mods[i]).imports.len() <= 0x1_0000_0000_0000
                && mods[i].imported_by.len() <= 0x1_0000_0000_0000,
            all == Seq::new(mods.len(), |i: int| move_of(mods, side@, i)),
            i <= mods.len(),
            r@ == all.take(i as int).filter(mostly_elsewhere()),
            all_rank_ok(r@),
        decreases mods.len() - i,
    {
        let cell = &graph.modules[i];
        let s = side[i];
        proof {
            assert(mods[i as int] == cell@);
        }
        let (o1, t1) = count_sides(graph, side, &cell.imports, s);
        let (o2, t2) = count_sides(graph, side, &cell.imported_by, s);
        let c = SideCount { module: i, other: o1 + o2, total: t1 + t2 };
        proof {
            let files = files_of(mods);
            let a = mods[i as int].imports;
            let b = mods[i as int].imported_by;
            Seq::filter_distributes_over_add(a, b, off_side(files, side@, s));
            Seq::filter_distributes_over_add(a, b, is_module_file(files));
            assert(connections(mods, i as int) == a + b);
            assert(c == all[i as int]);
            assert(all.take(i + 1) =~= all.take(i as int).push(c));
            all.take(i as int).lemma_filter_push(c, mostly_elsewhere());
        }
        if 10 * (c.other as u128) > 6 * (c.total as u128) {
            r.push(c);
        }
        i = i + 1;
    }
    proof {
        assert(all.take(mods.len() as int) =~= all);
    }
    r
}

/// The reorganization suggestions: the modules of which more than 60% of the
/// connections lie on the other side of the partition, highest share first,
/// at most 10.
pub fn generate_suggestions(graph: &CodeGraph, side: &Vec<bool>) -> (r: Vec<SideCount>)
    requires
        graph.wf(),
        side@.len() == graph.mods().len(),
        forall|i: int| 0 <= i < graph.mods().len() ==> (#[trigger] graph.mods()[i]).imports.len() <= 0x1_0000_0000_0000
            && graph.mods()[i].imported_by.len() <= 0x1_0000_0000_0000,
    ensures
        is_top(r@, move_candidates(graph.mods(), side@), 10),
        forall|i: int, j: int| 0 <= i < j < r@.len() ==> scores_at_least(#[trigger] r@[i], #[trigger] r@[j]),
        forall|i: int, x: SideCount|
            0 <= i < r@.len() && r@.to_multiset().count(x) < move_candidates(graph.mods(), side@).to_multiset().count(x)
                ==> #[trigger] scores_at_least(r@[i], x),
{
    let counts = move_counts(graph, side);
    let r = top_ranked(counts, 10);
    proof {
        lemma_top_scores_descend(r@, move_candidates(graph.mods(), side@), 10);
    }
    r
}

// ---------------------------------------------------------------------------
// Import cycles
// ---------------------------------------------------------------------------

/// Whether module `a` imports module `b`.
pub open spec fn imports_module(mods: Seq<ModuleView>, a: int, b: int) -> bool {
    0 <= a < mods.len() && 0 <= b < mods.len() && mods[a].imports.contains(mods[b].file)
}

/// Whether `c` is a cycle of distinct module indices, each importing the
/// next and the last importing the first.
pub open spec fn is_index_cycle(mods: Seq<ModuleView>, c: Seq<usize>) -> bool {
    &&& c.len() >= 2
    &&& c.no_duplicates()
    &&& forall|k: int| 0 <= k < c.len() - 1 ==> imports_module(mods, #[trigger] c[k] as int, c[k + 1] as int)
    &&& imports_module(mods, c[c.len() - 1] as int, c[0] as int)
}

/// Whether `c` is a cycle of distinct registered module files, each
/// importing the next and the last importing the first.
pub open spec fn is_import_cycle(mods: Seq<ModuleView>, c: Seq<Seq<char>>) -> bool {
    exists|ic: Seq<usize>|
        #[trigger] is_index_cycle(mods, ic) && c == ic.map_values(|i: usize| mods[i as int].file)
}

/// The indices of the registered modules that each module imports, in the
/// order of its imports.
pub open spec fn import_targets_of(mods: Seq<ModuleView>, i: int) -> Seq<usize> {
    mods[i].imports.filter(is_module_file(files_of(mods))).map_values(
        |f: Seq<char>| index_in(files_of(mods), f) as usize,
    )
}

/// The import targets of every module.
pub fn import_targets(graph: &CodeGraph) -> (r: Vec<Vec<usize>>)
    requires
        graph.wf(),
    ensures
        r@.len() == graph.mods().len(),
        forall|i: int| 0 <= i < r@.len() ==> (#[trigger] r@[i])@ == import_targets_of(graph.mods(), i),
        forall|i: int, k: int|
            0 <= i < r@.len() && 0 <= k < r@[i]@.len() ==> imports_module(graph.mods(), i, #[trigger] r@[i]@[k] as int),
{
    let ghost mods = graph.mods();
    let ghost files = files_of(mods);
    proof {
        assert(files =~= graph.mod_files());
    }
    let mut r: Vec<Vec<usize>> = Vec::new();
    let mut i: usize = 0;
    while i < graph.modules.len()
        invariant
            graph.wf(),
            mods == graph.mods(),
            files == graph.mod_files(),
            i <= mods.len(),
            r@.len() == i,
            forall|a: int| 0 <= a < i ==> (#[trigger] r@[a])@ == import_targets_of(mods, a),
            forall|a: int, k: int|
                0 <= a < i && 0 <= k < r@[a]@.len() ==> imports_module(mods, a, #[trigger] r@[a]@[k] as int),
        decreases mods.len() - i,
    {
        let imports = &graph.modules[i].imports;
        let ghost imps = mods[i as int].imports;
        proof {
            assert(imps == paths(imports@));
        }
        let mut row: Vec<usize> = Vec::new();
        let mut j: usize = 0;
        while j < imports.len()
            invariant
                graph.wf(),
                mods == graph.mods(),
                files == graph.mod_files(),
                i < mods.len(),
                imps == mods[i as int].imports,
                imps == paths(imports@),
                j <= imps.len(),
                row@ == imps.take(j as int).filter(is_module_file(files)).map_values(
                    |f: Seq<char>| index_in(files, f) as usize,
                ),
                forall|k: int| 0 <= k < row@.len() ==> imports_module(mods, i as int, #[trigger] row@[k] as int),
            decreases imps.len() - j,
        {
            let f = &imports[j];
            proof {
                assert(imps[j as int] == f@);
                assert(imps.take(j + 1) =~= imps.take(j as int).push(f@));
                imps.take(j as int).lemma_filter_push(f@, is_module_file(files));
            }
            match graph.find_module(f) {
                Some(t) => {
                    proof {
                        assert(files[t as int] == f@);
                        lemma_index_in(files, t as int);
                        assert(imps.contains(f@));
                    }
                    row.push(t);
                },
                None => {},
            }
            proof {
                assert(row@ =~= imps.take(j + 1).filter(is_module_file(files)).map_values(
                    |f: Seq<char>| index_in(files, f) as usize,
                ));
            }
            j = j + 1;
        }
        proof {
            assert(imps.take(imps.len() as int) =~= imps);
        }
        r.push(row);
        i = i + 1;
    }
    r
}

/// Whether `p` is a path of distinct modules, each importing the next.
pub open spec fn is_import_path(mods: Seq<ModuleView>, p: Seq<usize>) -> bool {
    &&& p.no_duplicates()
    &&& forall|k: int| 0 <= k < p.len() ==> (#[trigger] p[k]) < mods.len()
    &&& forall|k: int| 0 <= k < p.len() - 1 ==> imports_module(mods, #[trigger] p[k] as int, p[k + 1] as int)
}

/// Whether every cycle of `cs` is an import cycle.
pub open spec fn all_cycles(mods: Seq<ModuleView>, cs: Seq<Vec<usize>>) -> bool {
    forall|k: int| 0 <= k < cs.len() ==> is_index_cycle(mods, (#[trigger] cs[k])@)
}

/// The views of a sequence of index lists.
pub open spec fn index_views(s: Seq<Vec<usize>>) -> Seq<Seq<usize>> {
    s.map_values(|v: Vec<usize>| v@)
}

/// The tail of `path` from module `t` on.
pub open spec fn tail_from(path: Seq<usize>, t: usize) -> Seq<usize> {
    path.subrange(index_in(path, t), path.len() as int)
}

/// The state of the depth-first search for cycles: which modules were
/// visited, the current path, and the cycles found so far.
pub type SearchState = (Seq<bool>, Seq<usize>, Seq<Seq<usize>>);

/// The depth-first search from module `cur` over the import targets `ts`:
/// mark `cur` visited, put it on the path, follow its targets in order,
/// then take it off the path again. `fuel` bounds the depth of the search.
pub open spec fn search_from(ts: Seq<Seq<usize>>, cur: usize, st: SearchState, fuel: nat) -> SearchState
    decreases fuel, 1int, 0int,
{
    let after = search_targets(ts, cur, 0, (st.0.update(cur as int, true), st.1.push(cur), st.2), fuel);
    (after.0, st.1, after.2)
}

/// The search over the targets of `cur` from the `j`-th on. A target other
/// than `cur` that lies on the path closes a cycle, the tail of the path
/// from that target on; one not yet visited is searched from in turn.
pub open spec fn search_targets(ts: Seq<Seq<usize>>, cur: usize, j: int, st: SearchState, fuel: nat) -> SearchState
    decreases fuel, 0int, ts[cur as int].len() - j,
{
    if j < 0 || j >= ts[cur as int].len() {
        st
    } else {
        let t = ts[cur as int][j];
        let next = if t == cur {
            st
        } else if st.1.contains(t) {
            (st.0, st.1, st.2.push(tail_from(st.1, t)))
        } else if !st.0[t as int] && fuel > 0 {
            search_from(ts, t, st, (fuel - 1) as nat)
        } else {
            st
        };
        search_targets(ts, cur, j + 1, next, fuel)
    }
}

/// The searches from each module `i` on in turn that no earlier search
/// visited.
pub open spec fn search_all(ts: Seq<Seq<usize>>, i: int, st: SearchState, fuel: nat) -> SearchState
    decreases ts.len() - i,
{
    if i < 0 || i >= ts.len() {
        st
    } else {
        let next = if !st.0[i] {
            search_from(ts, i as usize, st, fuel)
        } else {
            st
        };
        search_all(ts, i + 1, next, fuel)
    }
}

/// The import targets of every module.
pub open spec fn all_targets(mods: Seq<ModuleView>) -> Seq<Seq<usize>> {
    Seq::new(mods.len(), |i: int| import_targets_of(mods, i))
}

/// The cycles that the depth-first search closes, in the order it closes
/// them: searching from each module in turn that no earlier search visited,
/// following the imports of each module in order, and recording the tail of
/// the path each time an import other than a self-import leads back onto
/// the path.
pub open spec fn found_cycles(mods: Seq<ModuleView>) -> Seq<Seq<usize>> {
    search_all(
        all_targets(mods),
        0,
        (Seq::new(mods.len(), |i: int| false), Seq::empty(), Seq::empty()),
        mods.len(),
    ).2
}

proof fn lemma_index_views_push(s: Seq<Vec<usize>>, v: Vec<usize>)
    ensures
        index_views(s.push(v)) == index_views(s).push(v@),
{
    assert(index_views(s.push(v)) =~= index_views(s).push(v@));
}

/// The part of `path` from the first occurrence of `t` on.
fn cycle_back_to(path: &Vec<usize>, t: usize) -> (c: Vec<usize>)
    requires
        path@.contains(t),
        path@.no_duplicates(),
    ensures
        exists|p: int| 0 <= p < path@.len() && path@[p] == t && c@ == path@.subrange(p, path@.len() as int),
        c@ == tail_from(path@, t),
{
    let plen = path.len();
    let mut p: usize = 0;
    while path[p] != t
        invariant
            plen == path@.len(),
            p < plen,
            path@.contains(t),
            forall|q: int| 0 <= q < p ==> path@[q] != t,
        decreases plen - p,
    {
        p = p + 1;
        proof {
            if p == plen {
                let q = choose|q: int| 0 <= q < path@.len() && path@[q] == t;
                assert(false);
            }
        }
    }
    let mut cycle: Vec<usize> = Vec::new();
    let mut q: usize = p;
    while q < plen
        invariant
            plen == path@.len(),
            p <= q <= plen,
            cycle@ == path@.subrange(p as int, q as int),
        decreases plen - q,
    {
        cycle.push(path[q]);
        q = q + 1;
    }
    proof {
        lemma_index_in(path@, p as int);
    }
    cycle
}

/// The tail of an import path that starts at `t`, when its last module
/// `current` imports `t != current`, is an import cycle.
proof fn lemma_path_cycle(mods: Seq<ModuleView>, path: Seq<usize>, c: Seq<usize>, current: usize, t: usize)
    requires
        is_import_path(mods, path),
        path.len() > 0,
        path.last() == current,
        t != current,
        imports_module(mods, current as int, t as int),
        exists|p: int| 0 <= p < path.len() && path[p] == t && c == path.subrange(p, path.len() as int),
    ensures
        is_index_cycle(mods, c),
{
    let p = choose|p: int| 0 <= p < path.len() && path[p] == t && c == path.subrange(p, path.len() as int);
    assert(c.len() >= 2) by {
        if c.len() == 1 {
            assert(c[0] == t && path.last() == current);
        }
    }
    assert forall|k: int| 0 <= k < c.len() - 1 implies imports_module(mods, #[trigger] c[k] as int, c[k + 1] as int) by {
        assert(c[k] == path[p + k] && c[k + 1] == path[p + k + 1]);
    }
    assert(c[c.len() - 1] == current);
    assert(c[0] == t);
    assert forall|a: int, b: int| 0 <= a < b < c.len() implies c[a] != c[b] by {
        assert(c[a] == path[p + a] && c[b] == path[p + b]);
    }
}

/// Whether every module of `done` finished after each of its targets other
/// than itself: the order in which a depth-first search that found no cycle
/// finishes its modules.
pub open spec fn finished_in_order(targets: Seq<Vec<usize>>, done: Seq<usize>) -> bool {
    forall|p: int, k: int|
        #![trigger targets[done[p] as int]@[k]]
        0 <= p < done.len() && 0 <= k < targets[done[p] as int]@.len() && targets[done[p] as int]@[k] != done[p]
            ==> exists|q: int| 0 <= q < p && done[q] == targets[done[p] as int]@[k]
}

/// Whether `done` lists distinct modules below `n`.
pub open spec fn distinct_below(done: Seq<usize>, n: int) -> bool {
    &&& done.no_duplicates()
    &&& forall|p: int| 0 <= p < done.len() ==> (#[trigger] done[p]) < n
}

/// Depth-first search from `current` along the import targets, recording a
/// cycle each time an import leads back onto the current path.
#[verifier::spinoff_prover]
#[verifier::rlimit(60)]
fn dfs_cycles(
    graph: &CodeGraph,
    targets: &Vec<Vec<usize>>,
    current: usize,
    visited: &mut Vec<bool>,
    path: &mut Vec<usize>,
    on_path: &mut Vec<bool>,
    cycles: &mut Vec<Vec<usize>>,
    Ghost(budget): Ghost<nat>,
    Ghost(done): Ghost<Seq<usize>>,
) -> (finished: Ghost<Seq<usize>>)
    requires
        budget >= old(visited)@.len() - flagged(old(visited)@).len(),
        distinct_below(done, graph.mods().len() as int),
        forall|v: int|
            0 <= v < graph.mods().len() ==> (old(visited)@[v] && !old(on_path)@[v] <==> #[trigger] done.contains(
                v as usize,
            )),
        old(cycles)@.len() == 0 ==> finished_in_order(targets@, done),
        graph.wf(),
        targets@.len() == graph.mods().len(),
        forall|i: int, k: int|
            0 <= i < targets@.len() && 0 <= k < targets@[i]@.len() ==> imports_module(
                graph.mods(),
                i,
                #[trigger] targets@[i]@[k] as int,
            ),
        current < graph.mods().len(),
        old(visited)@.len() == graph.mods().len(),
        old(on_path)@.len() == graph.mods().len(),
        !old(visited)@[current as int],
        !old(on_path)@[current as int],
        is_import_path(graph.mods(), old(path)@),
        old(path)@.len() > 0 ==> imports_module(graph.mods(), old(path)@.last() as int, current as int),
        forall|v: int| 0 <= v < graph.mods().len() ==> (#[trigger] old(on_path)@[v] <==> old(path)@.contains(v as usize)),
        forall|v: int| 0 <= v < graph.mods().len() && #[trigger] old(on_path)@[v] ==> old(visited)@[v],
        all_cycles(graph.mods(), old(cycles)@),
    ensures
        final(visited)@.len() == old(visited)@.len(),
        forall|v: int| 0 <= v < final(visited)@.len() && #[trigger] old(visited)@[v] ==> final(visited)@[v],
        final(visited)@[current as int],
        final(path)@ == old(path)@,
        final(on_path)@ == old(on_path)@,
        all_cycles(graph.mods(), final(cycles)@),
        final(cycles)@.len() >= old(cycles)@.len(),
        final(cycles)@.take(old(cycles)@.len() as int) == old(cycles)@,
        finished@.len() > done.len(),
        finished@.take(done.len() as int) == done,
        distinct_below(finished@, graph.mods().len() as int),
        forall|v: int|
            0 <= v < graph.mods().len() ==> (final(visited)@[v] && !final(on_path)@[v] <==> #[trigger] finished@.contains(
                v as usize,
            )),
        final(cycles)@.len() == 0 ==> finished_in_order(targets@, finished@),
        (final(visited)@, final(path)@, index_views(final(cycles)@)) == search_from(
            index_views(targets@),
            current,
            (old(visited)@, old(path)@, index_views(old(cycles)@)),
            budget,
        ),
    decreases budget,
{
    let nn = graph.modules.len();
    let ghost mods = graph.mods();
    let ghost n = mods.len();
    let ghost vis0 = visited@;
    let ghost path0 = path@;
    let ghost onp0 = on_path@;
    let ghost cyc0 = cycles@;
    let ghost ts = index_views(targets@);
    proof {
        lemma_flagged_bound(vis0);
    }
    visited.set(current, true);
    path.push(current);
    on_path.set(current, true);
    proof {
        assert(flagged(visited@) =~= flagged(vis0).insert(current as int));
        lemma_flagged_bound(visited@);
        assert forall|k: int| 0 <= k < path@.len() - 1 implies imports_module(mods, #[trigger] path@[k] as int, path@[k + 1] as int) by {
            if k < path0.len() - 1 {
                assert(path@[k] == path0[k] && path@[k + 1] == path0[k + 1]);
            } else {
                assert(path@[k] == path0.last());
            }
        }
        assert forall|a: int, b: int| 0 <= a < b < path@.len() implies path@[a] != path@[b] by {
            if b == path0.len() {
                assert(path0.contains(path@[a]));
                assert(onp0[path@[a] as int]);
            }
        }
        assert forall|v: int| 0 <= v < n implies (#[trigger] on_path@[v] <==> path@.contains(v as usize)) by {
            if v != current {
                if path0.contains(v as usize) {
                    let q = choose|q: int| 0 <= q < path0.len() && path0[q] == v as usize;
                    assert(path@[q] == v as usize);
                }
                if path@.contains(v as usize) {
                    let q = choose|q: int| 0 <= q < path@.len() && path@[q] == v as usize;
                    assert(path@[path0.len() as int] == current);
                    assert(nn == n);
                    assert(q < path0.len());
                    assert(path0[q] == v as usize);
                }
            } else {
                assert(path@[path0.len() as int] == current);
            }
        }
    }
    let ghost st1: SearchState = (visited@, path@, index_views(cyc0));
    let ghost mut now = done;
    proof {
        assert(now.take(done.len() as int) =~= done);
        assert forall|v: int| 0 <= v < n implies (visited@[v] && !on_path@[v] <==> #[trigger] now.contains(
            v as usize,
        )) by {
            if v != current {
                assert(visited@[v] == vis0[v]);
                assert(on_path@[v] == onp0[v]);
            }
        }
    }
    let row = &targets[current];
    let mut j: usize = 0;
    while j < row.len()
        invariant
            graph.wf(),
            mods == graph.mods(),
            n == mods.len(),
            targets@.len() == n,
            forall|i: int, k: int|
                0 <= i < targets@.len() && 0 <= k < targets@[i]@.len() ==> imports_module(
                    mods,
                    i,
                    #[trigger] targets@[i]@[k] as int,
                ),
            current < n,
            row == targets@[current as int],
            j <= row@.len(),
            visited@.len() == n,
            on_path@.len() == n,
            visited@[current as int],
            forall|v: int| 0 <= v < n && #[trigger] vis0[v] ==> visited@[v],
            flagged(visited@).len() > flagged(vis0).len(),
            budget >= n - flagged(vis0).len(),
            ts == index_views(targets@),
            search_targets(ts, current, j as int, (visited@, path@, index_views(cycles@)), budget) == search_targets(
                ts,
                current,
                0,
                st1,
                budget,
            ),
            flagged(visited@).finite(),
            flagged(visited@).len() <= n,
            vis0.len() == n,
            path@ == path0.push(current),
            is_import_path(mods, path@),
            forall|v: int| 0 <= v < n ==> (#[trigger] on_path@[v] <==> path@.contains(v as usize)),
            forall|v: int| 0 <= v < n && #[trigger] on_path@[v] ==> visited@[v],
            on_path@ == onp0.update(current as int, true),
            all_cycles(mods, cycles@),
            cycles@.len() >= cyc0.len(),
            cycles@.take(cyc0.len() as int) == cyc0,
            now.len() >= done.len(),
            now.take(done.len() as int) == done,
            distinct_below(now, n as int),
            forall|v: int| 0 <= v < n ==> (visited@[v] && !on_path@[v] <==> #[trigger] now.contains(v as usize)),
            !now.contains(current),
            cycles@.len() == 0 ==> finished_in_order(targets@, now),
            cycles@.len() == 0 ==> forall|k: int|
                0 <= k < j && #[trigger] row@[k] != current ==> now.contains(row@[k]),
        decreases row@.len() - j,
    {
        let t = row[j];
        let ghost st_pre: SearchState = (visited@, path@, index_views(cycles@));
        proof {
            assert(imports_module(mods, current as int, t as int));
            assert(ts[current as int] == row@);
            assert(ts[current as int][j as int] == t);
        }
        if t != current {
            if on_path[t] {
                // An import leads back onto the path: record the cycle from `t` on.
                let cycle = cycle_back_to(path, t);
                proof {
                    lemma_path_cycle(mods, path@, cycle@, current, t);
                }
                let ghost cs0 = cycles@;
                cycles.push(cycle);
                proof {
                    assert(cycles@.take(cyc0.len() as int) =~= cs0.take(cyc0.len() as int));
                    lemma_index_views_push(cs0, cycle);
                    assert(path@.contains(t));
                }
            } else if !visited[t] {
                let ghost before = visited@;
                let ghost cb = cycles@;
                let ghost budget2 = (budget - 1) as nat;
                let ghost now0 = now;
                let ghost cyc_before = cycles@;
                let fin = dfs_cycles(graph, targets, t, visited, path, on_path, cycles, Ghost(budget2), Ghost(now));
                proof {
                    now = fin@;
                    assert(now.take(done.len() as int) =~= now.take(now0.len() as int).take(done.len() as int));
                    assert(now.contains(t));
                    assert(!now.contains(current)) by {
                        assert(on_path@[current as int]);
                    }
                    if cycles@.len() == 0 {
                        assert(cyc_before.len() == 0) by {
                            assert(cycles@.take(cyc_before.len() as int) == cyc_before);
                        }
                        assert forall|k: int| 0 <= k < j + 1 && #[trigger] row@[k] != current implies now.contains(
                            row@[k],
                        ) by {
                            if k < j {
                                assert(now0.contains(row@[k]));
                                let q = choose|q: int| 0 <= q < now0.len() && now0[q] == row@[k];
                                assert(now[q] == now0[q]);
                            } else {
                                assert(row@[k] == t);
                            }
                        }
                    }
                    assert(flagged(before).subset_of(flagged(visited@)));
                    lemma_flagged_bound(visited@);
                    vstd::set_lib::lemma_len_subset(flagged(before), flagged(visited@));
                    assert(cycles@.take(cyc0.len() as int) =~= cycles@.take(cb.len() as int).take(
                        cyc0.len() as int,
                    ));
                }
            }
        }
        proof {
            assert(search_targets(ts, current, j as int, st_pre, budget) == search_targets(
                ts,
                current,
                j + 1,
                (visited@, path@, index_views(cycles@)),
                budget,
            ));
        }
        j = j + 1;
    }
    path.pop();
    on_path.set(current, false);
    let ghost fin = now.push(current);
    proof {
        assert(search_targets(ts, current, row@.len() as int, (visited@, path0.push(current), index_views(cycles@)), budget)
            == (visited@, path0.push(current), index_views(cycles@)));
        assert(path@ =~= path0);
        assert(on_path@ =~= onp0);
        assert(fin.take(done.len() as int) =~= now.take(done.len() as int));
        assert forall|v: int| 0 <= v < n implies (visited@[v] && !on_path@[v] <==> #[trigger] fin.contains(
            v as usize,
        )) by {
            if v == current {
                assert(fin[now.len() as int] == current);
            } else {
                if now.contains(v as usize) {
                    let q = choose|q: int| 0 <= q < now.len() && now[q] == v as usize;
                    assert(fin[q] == v as usize);
                }
                if fin.contains(v as usize) {
                    let q = choose|q: int| 0 <= q < fin.len() && fin[q] == v as usize;
                    assert(q < now.len());
                    assert(now[q] == v as usize);
                }
            }
        }
        assert(distinct_below(fin, n as int)) by {
            assert forall|a: int, b: int| 0 <= a < b < fin.len() implies fin[a] != fin[b] by {
                if b == now.len() {
                    assert(now.contains(fin[a]));
                }
            }
        }
        if cycles@.len() == 0 {
            assert forall|p: int, k: int|
                #![trigger targets@[fin[p] as int]@[k]]
                0 <= p < fin.len() && 0 <= k < targets@[fin[p] as int]@.len() && targets@[fin[p] as int]@[k]
                    != fin[p] implies exists|q: int| 0 <= q < p && fin[q] == targets@[fin[p] as int]@[k] by {
                if p < now.len() {
                    assert(fin[p] == now[p]);
                    let q = choose|q: int| 0 <= q < p && now[q] == targets@[now[p] as int]@[k];
                    assert(fin[q] == now[q]);
                } else {
                    assert(fin[p] == current);
                    assert(row@[k] != current);
                    assert(now.contains(row@[k]));
                    let q = choose|q: int| 0 <= q < now.len() && now[q] == row@[k];
                    assert(fin[q] == now[q]);
                }
            }
        }
    }
    Ghost(fin)
}

/// The flagged members lie below the length, so there are finitely many and
/// at most that many.
proof fn lemma_flagged_bound(visited: Seq<bool>)
    ensures
        flagged(visited).finite(),
        flagged(visited).len() <= visited.len(),
{
    let range = vstd::set_lib::set_int_range(0, visited.len() as int);
    vstd::set_lib::lemma_int_range(0, visited.len() as int);
    assert(flagged(visited).subset_of(range));
    vstd::set_lib::lemma_len_subset(flagged(visited), range);
}

/// Whether the imports among the modules run in a cycle.
pub open spec fn has_import_cycle(mods: Seq<ModuleView>) -> bool {
    exists|c: Seq<usize>| #[trigger] is_index_cycle(mods, c)
}

/// A module imported by another appears among that module's import targets.
proof fn lemma_target_of_import(mods: Seq<ModuleView>, u: int, v: int)
    requires
        mods.len() <= usize::MAX,
        files_of(mods).no_duplicates(),
        imports_module(mods, u, v),
    ensures
        import_targets_of(mods, u).contains(v as usize),
{
    let files = files_of(mods);
    let imps = mods[u].imports;
    let f = mods[v].file;
    assert(files[v] == f);
    assert(is_module_file(files)(f));
    let i = choose|i: int| 0 <= i < imps.len() && imps[i] == f;
    imps.lemma_filter_contains(is_module_file(files), i);
    let fl = imps.filter(is_module_file(files));
    let k = choose|k: int| 0 <= k < fl.len() && fl[k] == f;
    lemma_index_in(files, v);
    assert(fl[k] == f);
    assert(import_targets_of(mods, u)[k] == index_in(files, fl[k]) as usize);
    assert(import_targets_of(mods, u)[k] == v as usize);
}

/// The position of `v` in `done`.
pub open spec fn pos_in(done: Seq<usize>, v: usize) -> int {
    choose|q: int| 0 <= q < done.len() && done[q] == v
}

proof fn lemma_pos_in(done: Seq<usize>, v: usize)
    requires
        done.contains(v),
    ensures
        0 <= pos_in(done, v) < done.len(),
        done[pos_in(done, v)] == v,
{
}

/// Along an import path of distinct modules, a measure that falls across
/// every import is lower at each later module than at the first.
proof fn lemma_falling_along(mods: Seq<ModuleView>, c: Seq<usize>, at: spec_fn(usize) -> int, i: int)
    requires
        1 <= i < c.len(),
        c.no_duplicates(),
        forall|k: int| 0 <= k < c.len() - 1 ==> imports_module(mods, #[trigger] c[k] as int, c[k + 1] as int),
        forall|a: int, b: int|
            #![trigger imports_module(mods, a, b)]
            imports_module(mods, a, b) && a != b ==> at(b as usize) < at(a as usize),
    ensures
        at(c[i]) < at(c[0]),
    decreases i,
{
    assert(imports_module(mods, c[i - 1] as int, c[i] as int));
    assert(c[i - 1] != c[i]);
    if i > 1 {
        lemma_falling_along(mods, c, at, i - 1);
    }
}

/// When every module finished after its import targets, no imports run in a
/// cycle: along a cycle the finishing positions would have to fall forever.
proof fn lemma_ordered_acyclic(mods: Seq<ModuleView>, targets: Seq<Vec<usize>>, done: Seq<usize>, c: Seq<usize>)
    requires
        mods.len() <= usize::MAX,
        files_of(mods).no_duplicates(),
        targets.len() == mods.len(),
        forall|i: int| 0 <= i < targets.len() ==> (#[trigger] targets[i])@ == import_targets_of(mods, i),
        done.no_duplicates(),
        forall|v: int| 0 <= v < mods.len() ==> #[trigger] done.contains(v as usize),
        finished_in_order(targets, done),
    ensures
        !is_index_cycle(mods, c),
{
    let at = |v: usize| pos_in(done, v);
    assert forall|a: int, b: int|
        #![trigger imports_module(mods, a, b)]
        imports_module(mods, a, b) && a != b implies at(b as usize) < at(a as usize) by {
        assert(done.contains(a as usize));
        assert(done.contains(b as usize));
        lemma_pos_in(done, a as usize);
        lemma_pos_in(done, b as usize);
        let pa = pos_in(done, a as usize);
        let pb = pos_in(done, b as usize);
        lemma_target_of_import(mods, a, b);
        let row = targets[a]@;
        let k = choose|k: int| 0 <= k < row.len() && row[k] == b as usize;
        assert(done[pa] as int == a);
        assert(targets[done[pa] as int]@[k] == b as usize);
        assert(targets[done[pa] as int]@[k] != done[pa]);
        let q = choose|q: int| 0 <= q < pa && done[q] == targets[done[pa] as int]@[k];
        assert(done[q] == done[pb]);
        assert(q == pb);
    }
    if is_index_cycle(mods, c) {
        let len = c.len() as int;
        lemma_falling_along(mods, c, at, len - 1);
        assert(imports_module(mods, c[len - 1] as int, c[0] as int));
        assert(c[len - 1] != c[0]);
    }
}

/// The import cycles found by a depth-first search from each module in turn
/// that no earlier search reached, as module indices: exactly the cycles of
/// [`found_cycles`], in order. Some cycle is found whenever the imports run
/// in a cycle.
pub fn detect_index_cycles(graph: &CodeGraph) -> (r: Vec<Vec<usize>>)
    requires
        graph.wf(),
    ensures
        all_cycles(graph.mods(), r@),
        has_import_cycle(graph.mods()) ==> r@.len() > 0,
        index_views(r@) == found_cycles(graph.mods()),
{
    let targets = import_targets(graph);
    let n = graph.modules.len();
    let mut visited: Vec<bool> = Vec::new();
    let mut on_path: Vec<bool> = Vec::new();
    let mut z: usize = 0;
    while z < n
        invariant
            z <= n,
            visited@.len() == z,
            on_path@.len() == z,
            forall|q: int| 0 <= q < z ==> !(#[trigger] on_path@[q]),
            forall|q: int| 0 <= q < z ==> !(#[trigger] visited@[q]),
        decreases n - z,
    {
        visited.push(false);
        on_path.push(false);
        z = z + 1;
    }
    let mut path: Vec<usize> = Vec::new();
    let mut cycles: Vec<Vec<usize>> = Vec::new();
    let ghost ts = index_views(targets@);
    let ghost init: SearchState = (Seq::new(n as nat, |q: int| false), Seq::empty(), Seq::empty());
    proof {
        assert(ts =~= all_targets(graph.mods()));
        assert(visited@ =~= init.0);
        assert(index_views(cycles@) =~= init.2);
    }
    let ghost mut done: Seq<usize> = Seq::empty();
    let mut i: usize = 0;
    while i < n
        invariant
            graph.wf(),
            n == graph.mods().len(),
            targets@.len() == n,
            forall|a: int| 0 <= a < targets@.len() ==> (#[trigger] targets@[a])@ == import_targets_of(graph.mods(), a),
            forall|a: int, k: int|
                0 <= a < targets@.len() && 0 <= k < targets@[a]@.len() ==> imports_module(
                    graph.mods(),
                    a,
                    #[trigger] targets@[a]@[k] as int,
                ),
            i <= n,
            visited@.len() == n,
            on_path@.len() == n,
            path@.len() == 0,
            forall|q: int| 0 <= q < n ==> !(#[trigger] on_path@[q]),
            forall|q: int| 0 <= q < i ==> #[trigger] visited@[q],
            all_cycles(graph.mods(), cycles@),
            distinct_below(done, n as int),
            forall|v: int| 0 <= v < n ==> (visited@[v] <==> #[trigger] done.contains(v as usize)),
            cycles@.len() == 0 ==> finished_in_order(targets@, done),
            ts == index_views(targets@),
            search_all(ts, i as int, (visited@, path@, index_views(cycles@)), n as nat) == search_all(
                ts,
                0,
                init,
                n as nat,
            ),
        decreases n - i,
    {
        let ghost st_pre: SearchState = (visited@, path@, index_views(cycles@));
        if !visited[i] {
            proof {
                assert(is_import_path(graph.mods(), path@));
                assert forall|v: int| 0 <= v < n implies (#[trigger] on_path@[v] <==> path@.contains(v as usize)) by {}
                lemma_flagged_bound(visited@);
            }
            let ghost budget = n as nat;
            let ghost vis_before = visited@;
            let fin = dfs_cycles(
                graph,
                &targets,
                i,
                &mut visited,
                &mut path,
                &mut on_path,
                &mut cycles,
                Ghost(budget),
                Ghost(done),
            );
            proof {
                done = fin@;
                assert forall|q: int| 0 <= q < i + 1 implies #[trigger] visited@[q] by {
                    if q < i {
                        assert(vis_before[q]);
                    }
                }
            }
        }
        proof {
            assert(search_all(ts, i as int, st_pre, n as nat) == search_all(
                ts,
                i + 1,
                (visited@, path@, index_views(cycles@)),
                n as nat,
            ));
        }
        i = i + 1;
    }
    proof {
        assert(ts.len() == n);
        assert(search_all(ts, n as int, (visited@, path@, index_views(cycles@)), n as nat) == (
            visited@,
            path@,
            index_views(cycles@),
        ));
        if has_import_cycle(graph.mods()) && cycles@.len() == 0 {
            let c = choose|c: Seq<usize>| #[trigger] is_index_cycle(graph.mods(), c);
            assert(files_of(graph.mods()) =~= graph.mod_files());
            assert(graph.mods().len() == n);
            assert forall|v: int| 0 <= v < graph.mods().len() implies #[trigger] done.contains(v as usize) by {
                assert(visited@[v]);
            }
            lemma_ordered_acyclic(graph.mods(), targets@, done, c);
            assert(false);
        }
    }
    cycles
}

/// The import cycles of the graph, as the files of their modules: the
/// cycles of [`found_cycles`], each once, in the order the depth-first
/// search closes them. In each, every module imports the next and the last
/// imports the first; some cycle is listed exactly when the imports run in
/// a cycle.
pub fn detect_cycles(graph: &CodeGraph) -> (r: Vec<Vec<FileId>>)
    requires
        graph.wf(),
    ensures
        r@.len() == found_cycles(graph.mods()).len(),
        forall|k: int|
            0 <= k < r@.len() ==> paths((#[trigger] r@[k])@) == found_cycles(graph.mods())[k].map_values(
                |i: usize| graph.mods()[i as int].file,
            ),
        forall|k: int| 0 <= k < r@.len() ==> is_import_cycle(graph.mods(), paths((#[trigger] r@[k])@)),
        r@.len() > 0 <==> has_import_cycle(graph.mods()),
{
    let ics = detect_index_cycles(graph);
    let ghost mods = graph.mods();
    let mut r: Vec<Vec<FileId>> = Vec::new();
    let mut k: usize = 0;
    while k < ics.len()
        invariant
            graph.wf(),
            mods == graph.mods(),
            all_cycles(mods, ics@),
            k <= ics@.len(),
            r@.len() == k,
            forall|a: int| 0 <= a < k ==> paths((#[trigger] r@[a])@) == ics@[a]@.map_values(
                |i: usize| mods[i as int].file,
            ),
        decreases ics@.len() - k,
    {
        let ic = &ics[k];
        let mut files: Vec<FileId> = Vec::new();
        let mut q: usize = 0;
        while q < ic.len()
            invariant
                graph.wf(),
                mods == graph.mods(),
                is_index_cycle(mods, ic@),
                q <= ic@.len(),
                paths(files@) == ic@.take(q as int).map_values(|i: usize| mods[i as int].file),
            decreases ic@.len() - q,
        {
            let ghost f0 = files@;
            let m = ic[q];
            proof {
                assert(m < mods.len()) by {
                    if q < ic@.len() - 1 {
                        assert(imports_module(mods, ic@[q as int] as int, ic@[q + 1] as int));
                    } else {
                        assert(imports_module(mods, ic@[ic@.len() - 1] as int, ic@[0] as int));
                    }
                }
            }
            files.push(graph.modules[m].file.clone());
            proof {
                assert(ic@.take(q + 1) =~= ic@.take(q as int).push(m));
                assert(paths(files@) =~= paths(f0).push(mods[m as int].file));
            }
            q = q + 1;
        }
        proof {
            assert(ic@.take(ic@.len() as int) =~= ic@);
        }
        r.push(files);
        k = k + 1;
    }
    proof {
        assert forall|k: int| 0 <= k < r@.len() implies is_import_cycle(mods, paths((#[trigger] r@[k])@)) by {
            assert(is_index_cycle(mods, ics@[k]@));
        }
        if r@.len() > 0 {
            assert(is_index_cycle(mods, ics@[0]@));
        }
        assert forall|k: int| 0 <= k < r@.len() implies paths((#[trigger] r@[k])@) == found_cycles(mods)[k].map_values(
            |i: usize| mods[i as int].file,
        ) by {
            assert(index_views(ics@)[k] == ics@[k]@);
        }
    }
    r
}

} // verus!
