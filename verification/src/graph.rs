//! The built graph: an arena of render passes referenced by index, the static
//! attachment textures they sample, a dependency-first ranking, and the
//! per-node output table parameter links resolve against.

use vstd::prelude::*;

verus! {

use crate::nodes::BlendOp;
use crate::params::ResolvedParameter;
use crate::uniforms::SamplerRef;
use crate::uniforms::UniformValue;
use crate::uniforms::Vec2i;
use crate::uniforms::Vec4i;

/// The text a text pass displays: a literal, or the live output of another
/// node (by node index).
#[derive(Debug, Clone)]
pub enum TextSource {
    Static(String),
    Node(usize),
}

/// What kind of pass a node became, with the per-kind data the host needs to
/// execute its draw.
#[derive(Debug, Clone)]
pub enum PassKind {
    /// A compiled vertex/fragment program, by source path.
    Shader { vertex: String, fragment: String },
    /// A blend of the pass's inputs; `alphas` are the weights in input order.
    Blend { operation: BlendOp, alphas: Vec<i64> },
    /// A text overlay.
    Text {
        text: TextSource,
        position: ResolvedParameter<Vec2i>,
        color: ResolvedParameter<Vec4i>,
        font_name: String,
        font_size: i64,
    },
    /// A frame-rate overlay.
    Fps {
        position: Vec2i,
        color: ResolvedParameter<Vec4i>,
        font_name: String,
        font_size: i64,
        interval_ms: i64,
    },
}

/// One executable graph node: an offscreen render target of `width x height`,
/// the pass kind, the static attachment textures it samples (indices into the
/// graph's attachment list, in `Texture(i)` order), and the dependency passes
/// whose outputs it samples (pass indices, in `Buffer(i)` order).
#[derive(Debug, Clone)]
pub struct RenderPass {
    pub name: String,
    pub kind: PassKind,
    pub attachments: Vec<usize>,
    pub depends: Vec<usize>,
    pub width: u32,
    pub height: u32,
}

/// A static attachment texture: externally decoded, read-only, shared by any
/// number of passes.
#[derive(Debug, Clone)]
pub struct Attachment {
    pub name: String,
    pub path: String,
}

/// A whole built graph. `rank` orders the passes dependency-first; `terminal`
/// marks the passes nothing samples (they render to the visible surface);
/// `outputs` holds, per original node, the sampler its output is read through.
#[derive(Debug, Clone)]
pub struct Graph {
    pub passes: Vec<RenderPass>,
    pub attachments: Vec<Attachment>,
    pub rank: Vec<usize>,
    pub terminal: Vec<bool>,
    pub outputs: Vec<UniformValue>,
}

/// A sampler reference stays inside the graph's arenas.
pub open spec fn sampler_ok(s: SamplerRef, n_passes: int, n_attachments: int) -> bool {
    match s {
        SamplerRef::Attachment(a) => a < n_attachments,
        SamplerRef::PassTexture(p) => p < n_passes,
    }
}

/// A resolved parameter's link stays inside the output table.
pub open spec fn param_ok<T>(r: ResolvedParameter<T>, n_outputs: int) -> bool {
    r matches ResolvedParameter::Link(i) ==> i < n_outputs
}

/// A pass kind's links stay inside the output table.
pub open spec fn kind_ok(k: PassKind, n_outputs: int) -> bool {
    match k {
        PassKind::Text { text, position, color, .. } => (text matches TextSource::Node(i)
            ==> i < n_outputs) && param_ok(position, n_outputs) && param_ok(color, n_outputs),
        PassKind::Fps { color, .. } => param_ok(color, n_outputs),
        _ => true,
    }
}

impl Graph {
    /// Pass `p` is sampled by some other pass.
    pub open spec fn consumed(self, p: int) -> bool {
        exists|q: int, k: int|
            0 <= q < self.passes@.len() && 0 <= k < self.passes@[q].depends@.len()
                && #[trigger] self.passes@[q].depends@[k] == p
    }

    /// Every dependency index is a pass of strictly smaller rank: the ranking
    /// witnesses acyclicity and bounds the per-frame traversal.
    pub open spec fn deps_ok(self) -> bool {
        forall|p: int, k: int|
            0 <= p < self.passes@.len() && 0 <= k < self.passes@[p].depends@.len() ==> {
                let d = #[trigger] self.passes@[p].depends@[k];
                d < self.passes@.len() && self.rank@[d as int] < self.rank@[p]
            }
    }

    /// The structural invariant of a built graph.
    pub open spec fn wf(self) -> bool {
        let n = self.passes@.len() as int;
        &&& self.rank@.len() == n
        &&& self.terminal@.len() == n
        &&& forall|p: int| 0 <= p < n ==> #[trigger] self.rank@[p] < n
        &&& self.deps_ok()
        &&& forall|p: int, k: int|
            0 <= p < n && 0 <= k < self.passes@[p].attachments@.len()
                ==> #[trigger] self.passes@[p].attachments@[k] < self.attachments@.len()
        &&& forall|p: int| 0 <= p < n ==> (#[trigger] self.terminal@[p] <==> !self.consumed(p))
        &&& forall|p: int|
            0 <= p < n ==> kind_ok(#[trigger] self.passes@[p].kind, self.outputs@.len() as int)
        &&& forall|i: int|
            0 <= i < self.outputs@.len() ==> ((#[trigger] self.outputs@[i]) matches
                UniformValue::Sampler(s) && sampler_ok(
                s,
                self.passes@.len() as int,
                self.attachments@.len() as int,
            ))
    }

    /// Reallocate every pass's backing texture at the new dimensions. Prior
    /// contents are discarded; everything else about the graph is unchanged.
    pub fn resize(&mut self, width: u32, height: u32)
        requires
            old(self).wf(),
        ensures
            final(self).wf(),
            final(self).passes@.len() == old(self).passes@.len(),
            forall|p: int|
                0 <= p < old(self).passes@.len() ==> #[trigger] final(self).passes@[p]
                    == (RenderPass { width, height, ..old(self).passes@[p] }),
            final(self).attachments == old(self).attachments,
            final(self).rank == old(self).rank,
            final(self).terminal == old(self).terminal,
            final(self).outputs == old(self).outputs,
    {
        let n = self.passes.len();
        let mut p: usize = 0;
        while p < n
            invariant
                n == self.passes@.len(),
                0 <= p <= n,
                self.attachments == old(self).attachments,
                self.rank == old(self).rank,
                self.terminal == old(self).terminal,
                self.outputs == old(self).outputs,
                forall|q: int|
                    0 <= q < p ==> #[trigger] self.passes@[q] == (RenderPass {
                        width,
                        height,
                        ..old(self).passes@[q]
                    }),
                forall|q: int| p <= q < n ==> #[trigger] self.passes@[q] == old(self).passes@[q],
                old(self).wf(),
            decreases n - p,
        {
            self.passes[p].width = width;
            self.passes[p].height = height;
            p += 1;
        }
        proof {
            assert forall|pp: int, k: int|
                0 <= pp < self.passes@.len() && 0 <= k < self.passes@[pp].depends@.len() implies {
                let d = #[trigger] self.passes@[pp].depends@[k];
                d < self.passes@.len() && self.rank@[d as int] < self.rank@[pp]
            } by {
                assert(self.passes@[pp].depends == old(self).passes@[pp].depends);
            }
            assert forall|pp: int| 0 <= pp < self.passes@.len() && self.consumed(pp) implies old(
                self,
            ).consumed(pp) by {
                let (q, k): (int, int) = choose|q: int, k: int|
                    0 <= q < self.passes@.len() && 0 <= k < self.passes@[q].depends@.len()
                        && #[trigger] self.passes@[q].depends@[k] == pp;
                assert(old(self).passes@[q].depends@[k] == pp);
            }
            assert forall|pp: int| 0 <= pp < self.passes@.len() && old(self).consumed(pp) implies self
                .consumed(pp) by {
                let (q, k): (int, int) = choose|q: int, k: int|
                    0 <= q < old(self).passes@.len() && 0 <= k < old(self).passes@[q].depends@.len()
                        && #[trigger] old(self).passes@[q].depends@[k] == pp;
                assert(self.passes@[q].depends@[k] == pp);
            }
        }
    }
}

} // verus!
