//! A small sample of an editor codebase's file dependencies, for
//! demonstrating the spectral analysis.
use vstd::prelude::*;

use crate::spectral_analysis::{
    ents_after, CodeGraph, DependencyEdge, DependencyWeight, EdgeView, Entity, EntityView,
};

verus! {

/// A dependency of file `from` on file `to`.
pub open spec fn file_edge(from: Seq<char>, to: Seq<char>, weight: DependencyWeight) -> EdgeView {
    EdgeView { from: EntityView::File(from), to: EntityView::File(to), weight }
}

/// The dependencies of the sample, in the order they are added.
pub open spec fn sample_edges() -> Seq<EdgeView> {
    seq![
        file_edge("src/editor.rs"@, "src/buffer.rs"@, DependencyWeight::Import),
        file_edge("src/editor.rs"@, "src/gpui.rs"@, DependencyWeight::Import),
        file_edge("src/editor.rs"@, "src/project.rs"@, DependencyWeight::Import),
        file_edge("src/buffer.rs"@, "src/text.rs"@, DependencyWeight::Import),
        file_edge("src/buffer.rs"@, "src/language.rs"@, DependencyWeight::Module),
        file_edge("src/gpui.rs"@, "src/window.rs"@, DependencyWeight::Import),
        file_edge("src/gpui.rs"@, "src/scene.rs"@, DependencyWeight::Import),
        file_edge("src/project.rs"@, "src/language.rs"@, DependencyWeight::Module),
        file_edge("src/project.rs"@, "src/worktree.rs"@, DependencyWeight::Import),
        file_edge("src/collab.rs"@, "src/project.rs"@, DependencyWeight::Module),
        file_edge("src/collab.rs"@, "src/rpc.rs"@, DependencyWeight::Import),
        file_edge("src/rpc.rs"@, "src/buffer.rs"@, DependencyWeight::Module),
    ]
}

/// A dependency of file `from` on file `to`.
fn file_dependency(from: &str, to: &str, weight: DependencyWeight) -> (e: DependencyEdge)
    ensures
        e@ == file_edge(from@, to@, weight),
{
    DependencyEdge { from: Entity::File(String::from_str(from)), to: Entity::File(String::from_str(to)), weight }
}

/// Build the sample graph: the dependencies of [`sample_edges`], added in
/// order, with their files as entities.
pub fn build_sample_graph() -> (g: CodeGraph)
    ensures
        g.wf(),
        g.edge_views() == sample_edges(),
        g.ents() == ents_after(Seq::empty(), sample_edges()),
{
    let mut g = CodeGraph::new();
    let ghost es = sample_edges();
    let mut k: usize = 0;
    while k < 12
        invariant
            es == sample_edges(),
            k <= 12,
            g.wf(),
            g.edge_views() == es.take(k as int),
            g.ents() == ents_after(Seq::empty(), es.take(k as int)),
        decreases 12 - k,
    {
        let e = if k == 0 {
            file_dependency("src/editor.rs", "src/buffer.rs", DependencyWeight::Import)
        } else if k == 1 {
            file_dependency("src/editor.rs", "src/gpui.rs", DependencyWeight::Import)
        } else if k == 2 {
            file_dependency("src/editor.rs", "src/project.rs", DependencyWeight::Import)
        } else if k == 3 {
            file_dependency("src/buffer.rs", "src/text.rs", DependencyWeight::Import)
        } else if k == 4 {
            file_dependency("src/buffer.rs", "src/language.rs", DependencyWeight::Module)
        } else if k == 5 {
            file_dependency("src/gpui.rs", "src/window.rs", DependencyWeight::Import)
        } else if k == 6 {
            file_dependency("src/gpui.rs", "src/scene.rs", DependencyWeight::Import)
        } else if k == 7 {
            file_dependency("src/project.rs", "src/language.rs", DependencyWeight::Module)
        } else if k == 8 {
            file_dependency("src/project.rs", "src/worktree.rs", DependencyWeight::Import)
        } else if k == 9 {
            file_dependency("src/collab.rs", "src/project.rs", DependencyWeight::Module)
        } else if k == 10 {
            file_dependency("src/collab.rs", "src/rpc.rs", DependencyWeight::Import)
        } else {
            file_dependency("src/rpc.rs", "src/buffer.rs", DependencyWeight::Module)
        };
        proof {
            assert(e@ == es[k as int]);
            assert(es.take(k + 1) =~= es.take(k as int).push(e@));
            assert(es.take(k + 1).drop_last() =~= es.take(k as int));
        }
        g.add_edge(e);
        k = k + 1;
    }
    proof {
        assert(es.take(12) =~= es);
    }
    g
}

} // verus!
