//! Termination policy of the recursive radiance estimator.
//!
//! The estimator follows a path through the scene one bounce at a time. After
//! each nearest-hit query it takes one of three steps: return black when the
//! ray leaves the scene, return the hit sphere's emission alone once the depth
//! has passed the bound, or sample a new direction and continue one level
//! deeper. The shading arithmetic that combines the steps is left to the
//! caller; this module fixes which step is taken.

use vstd::prelude::*;

verus! {

/// Depth past which a hit returns its emission alone.
pub const MAX_DEPTH: usize = 5;

/// What the estimator does after one nearest-hit query.
#[derive(Debug, Clone, Copy, PartialEq, Eq, Structural)]
pub enum Step {
    /// The ray hit nothing: the contribution is black.
    Background,
    /// The depth is past the bound: the contribution is the emission of
    /// sphere `index` and nothing reflected.
    Emit { index: usize },
    /// Sample a diffuse bounce off sphere `index` and estimate the incoming
    /// light one level deeper, at `next_depth`.
    Scatter { index: usize, next_depth: usize },
}

impl Step {
    pub open spec fn is_terminal(self) -> bool {
        !(self is Scatter)
    }
}

/// The step taken at `depth` after a query whose nearest hit is `hit`.
pub open spec fn step_spec(hit: Option<usize>, depth: nat) -> Step {
    match hit {
        None => Step::Background,
        Some(index) => if depth > MAX_DEPTH {
            Step::Emit { index }
        } else {
            Step::Scatter { index, next_depth: (depth + 1) as usize }
        },
    }
}

/// The steps taken along a path that starts at `depth` and whose queries
/// report `hits` in turn. The walk ends at the first terminal step, or when
/// the hits run out.
pub open spec fn walk(hits: Seq<Option<usize>>, depth: nat) -> Seq<Step>
    decreases hits.len(),
{
    if hits.len() == 0 {
        Seq::empty()
    } else {
        let s = step_spec(hits[0], depth);
        if s.is_terminal() {
            seq![s]
        } else {
            seq![s] + walk(hits.drop_first(), depth + 1)
        }
    }
}

/// Decides the estimator's next step at `depth` from the query's nearest hit.
pub fn next_step(hit: Option<usize>, depth: usize) -> (r: Step)
    ensures
        r == step_spec(hit, depth as nat),
{
    match hit {
        None => Step::Background,
        Some(index) => {
            if depth > MAX_DEPTH {
                Step::Emit { index }
            } else {
                Step::Scatter { index, next_depth: depth + 1 }
            }
        },
    }
}

/// Every step of a walk stays at a depth within the bound plus one, and a
/// hit past the bound returns its emission alone.
pub proof fn lemma_step_within_bound(hit: Option<usize>, depth: nat)
    ensures
        step_spec(hit, depth) matches Step::Scatter { next_depth, .. } ==> depth <= MAX_DEPTH
            && next_depth == depth + 1 && next_depth <= MAX_DEPTH + 1,
        depth > MAX_DEPTH && hit is Some ==> step_spec(hit, depth) == (Step::Emit {
            index: hit->0,
        }),
{
}

/// A path traced from the camera scatters at most `MAX_DEPTH + 1` times: its
/// walk has at most `MAX_DEPTH + 2` steps, the `k`-th step is taken at depth
/// `k`, every step but the last scatters, and the last step, once reached at
/// a depth past the bound on a hit, is that sphere's emission alone.
pub proof fn lemma_walk_bounded(hits: Seq<Option<usize>>)
    ensures
        walk(hits, 0).len() <= MAX_DEPTH + 2,
        walk(hits, 0).len() <= hits.len(),
        forall|k: int|
            0 <= k < walk(hits, 0).len() ==> #[trigger] walk(hits, 0)[k] == step_spec(
                hits[k],
                k as nat,
            ),
        forall|k: int| 0 <= k < walk(hits, 0).len() - 1 ==> !(#[trigger] walk(hits, 0)[k]).is_terminal(),
        hits.len() > MAX_DEPTH + 1 ==> walk(hits, 0).len() > 0 && walk(hits, 0).last().is_terminal(),
        walk(hits, 0).len() == MAX_DEPTH + 2 ==> (hits[MAX_DEPTH + 1] is Some ==> walk(hits, 0).last()
            == (Step::Emit { index: hits[MAX_DEPTH + 1]->0 })),
{
    lemma_walk_from(hits, 0);
}

proof fn lemma_walk_from(hits: Seq<Option<usize>>, depth: nat)
    requires
        depth <= MAX_DEPTH + 1,
    ensures
        walk(hits, depth).len() + depth <= MAX_DEPTH + 2,
        walk(hits, depth).len() <= hits.len(),
        forall|k: int|
            0 <= k < walk(hits, depth).len() ==> #[trigger] walk(hits, depth)[k] == step_spec(
                hits[k],
                (depth + k) as nat,
            ),
        forall|k: int|
            0 <= k < walk(hits, depth).len() - 1 ==> !(#[trigger] walk(hits, depth)[k]).is_terminal(),
        hits.len() + depth > MAX_DEPTH + 1 ==> walk(hits, depth).len() > 0 && walk(
            hits,
            depth,
        ).last().is_terminal(),
    decreases hits.len(),
{
    if hits.len() > 0 {
        let s = step_spec(hits[0], depth);
        if !s.is_terminal() {
            lemma_walk_from(hits.drop_first(), depth + 1);
            let rest = walk(hits.drop_first(), depth + 1);
            assert(walk(hits, depth) == seq![s] + rest);
            assert forall|k: int| 0 <= k < walk(hits, depth).len() implies #[trigger] walk(
                hits,
                depth,
            )[k] == step_spec(hits[k], (depth + k) as nat) by {
                if k > 0 {
                    assert(walk(hits, depth)[k] == rest[k - 1]);
                    assert(hits.drop_first()[k - 1] == hits[k]);
                }
            }
            assert forall|k: int| 0 <= k < walk(hits, depth).len() - 1 implies !(#[trigger] walk(
                hits,
                depth,
            )[k]).is_terminal() by {
                if k > 0 {
                    assert(walk(hits, depth)[k] == rest[k - 1]);
                }
            }
        }
    }
}

} // verus!
