//! Agglomerative hierarchical clustering over a condensed pairwise
//! dissimilarity matrix.
//!
//! Dissimilarities are unsigned fixed-point integers (`u64`): the caller picks
//! the unit (for example, micrometres or 1e-9 miles) and converts before and
//! after clustering. Labels and sizes are exact; the update formulas round
//! their divisions down, and the methods that work on squared
//! dissimilarities take the floor of the square root at the end.

use vstd::prelude::*;

mod active;
mod chain;
mod condensed;
mod dendrogram;
mod primitive;
mod queue;
mod spanning;
mod state;
mod generic;
mod method;
mod union;
pub mod update;

pub use crate::active::{Active, ActiveIter, ActiveRange};
pub use crate::chain::{nnchain, nnchain_with};
pub use crate::condensed::CondensedMatrix;
pub use crate::dendrogram::{Dendrogram, Step};
pub use crate::generic::{generic, generic_with};
pub use crate::primitive::{argmin, primitive, primitive_with};
pub use crate::queue::LinkageHeap;
pub use crate::spanning::{mst, mst_with};
pub use crate::state::LinkageState;
pub use crate::union::LinkageUnionFind;
pub use crate::method::{Error, Method, MethodChain, kodama_method, method_from_name, method_chain_from_name, isqrt};

verus! {

/// Return a hierarchical clustering of observations given their pairwise
/// dissimilarities, as a condensed matrix of `observations` choose 2
/// entries: the upper triangle of the matrix, row after row.
///
/// The result has `observations - 1` steps, each merging two clusters; the
/// last creates the cluster of all observations. Single linkage runs the
/// spanning tree algorithm, centroid and median the generic algorithm, the
/// other methods the nearest-neighbor chain algorithm.
///
/// The matrix is used as scratch space: its contents afterwards are
/// unspecified.
pub fn linkage(condensed_dissimilarity_matrix: &mut Vec<u64>, observations: usize, method: Method) -> (r: Dendrogram)
    requires
        observations * (observations - 1) <= usize::MAX,
        old(condensed_dissimilarity_matrix)@.len() == condensed::condensed_len(observations as int),
    ensures
        final(condensed_dissimilarity_matrix)@.len() == old(condensed_dissimilarity_matrix)@.len(),
        r.spec_is_clustering_of(observations as nat),
        method.spec_requires_sorting() ==> method::sorted_by_dissimilarity(r.spec_steps()),
        method is Single ==> spanning::reports_spanning_tree(old(condensed_dissimilarity_matrix)@, observations as nat, r),
        method is Centroid || method is Median ==> primitive::reports_agglomeration(
            method,
            true,
            old(condensed_dissimilarity_matrix)@,
            observations as nat,
            r,
        ),
        !(method is Single || method is Centroid || method is Median) ==> primitive::reports_agglomeration(
            method,
            false,
            old(condensed_dissimilarity_matrix)@,
            observations as nat,
            r,
        ),
{
    let mut state = LinkageState::new();
    let mut steps = Dendrogram::new(observations);
    linkage_with(&mut state, condensed_dissimilarity_matrix, observations, method, &mut steps);
    steps
}

/// Like `linkage`, but reuses the given scratch space and dendrogram.
pub fn linkage_with(
    state: &mut LinkageState,
    condensed_dissimilarity_matrix: &mut Vec<u64>,
    observations: usize,
    method: Method,
    steps: &mut Dendrogram,
)
    requires
        observations * (observations - 1) <= usize::MAX,
        old(condensed_dissimilarity_matrix)@.len() == condensed::condensed_len(observations as int),
    ensures
        final(condensed_dissimilarity_matrix)@.len() == old(condensed_dissimilarity_matrix)@.len(),
        final(steps).spec_is_clustering_of(observations as nat),
        method.spec_requires_sorting() ==> method::sorted_by_dissimilarity(final(steps).spec_steps()),
        method is Single ==> spanning::reports_spanning_tree(old(condensed_dissimilarity_matrix)@, observations as nat, *final(steps)),
        method is Centroid || method is Median ==> primitive::reports_agglomeration(
            method,
            true,
            old(condensed_dissimilarity_matrix)@,
            observations as nat,
            *final(steps),
        ),
        !(method is Single || method is Centroid || method is Median) ==> primitive::reports_agglomeration(
            method,
            false,
            old(condensed_dissimilarity_matrix)@,
            observations as nat,
            *final(steps),
        ),
{
    let matrix = condensed_dissimilarity_matrix;
    if method == Method::Single {
        mst_with(state, matrix, observations, steps);
    } else {
        match method.into_method_chain() {
            Some(chain) => nnchain_with(state, matrix, observations, chain, steps),
            None => generic_with(state, matrix, observations, method, steps),
        }
    }
}

} // verus!
