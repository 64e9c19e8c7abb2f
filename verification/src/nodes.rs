//! Declarative node configurations: the typed description of each node kind
//! and the spec-level view of the names a node references.

use vstd::prelude::*;

verus! {

use crate::params::NodeParameter;
use crate::params::link_of;
use crate::uniforms::Vec2i;
use crate::uniforms::Vec4i;

/// Image node: a static texture loaded from a file, consumed by other nodes
/// as an attachment.
#[derive(Debug, Clone)]
pub struct ImageConfig {
    /// Relative path to the image.
    pub path: String,
}

/// Shader node: a full-surface pass over a compiled vertex/fragment program.
#[derive(Debug, Clone)]
pub struct ShaderConfig {
    /// Relative path to the vertex shader source.
    pub vertex: String,
    /// Relative path to the fragment shader source.
    pub fragment: String,
    /// Names of the input nodes, in sampler order.
    pub inputs: Vec<String>,
}

/// One input of a blend node: a node name and its alpha weight.
#[derive(Debug, Clone)]
pub struct BlendInput {
    pub name: String,
    pub alpha: i64,
}

/// Blend node: combines the outputs of several nodes.
#[derive(Debug, Clone)]
pub struct BlendConfig {
    /// The combining operation.
    pub operation: BlendOp,
    /// Input node names with alpha weights, in sampler order.
    pub inputs: Vec<BlendInput>,
}

/// Blend node operations.
#[derive(Debug, Clone, Copy, PartialEq, Eq, Structural)]
pub enum BlendOp {
    /// Take the minimum RGBA value.
    Min,
    /// Take the maximum RGBA value.
    Max,
    /// Add the RGBA values.
    Add,
    /// Subtract the RGBA values.
    Sub,
}

/// Text node: renders a string overlay.
#[derive(Debug, Clone)]
pub struct TextConfig {
    /// Text to render.
    pub text: NodeParameter<String>,
    /// Position to render at, in pixels.
    pub position: NodeParameter<Vec2i>,
    /// Color to render in.
    pub color: NodeParameter<Vec4i>,
    /// Font name.
    pub font_name: String,
    /// Font size, in pixels.
    pub font_size: i64,
}

/// FPS counter node: renders the measured frame rate as text.
#[derive(Debug, Clone)]
pub struct FpsConfig {
    /// Position to render at, in pixels.
    pub position: Vec2i,
    /// Color to render in.
    pub color: NodeParameter<Vec4i>,
    /// Font name.
    pub font_name: String,
    /// Font size, in pixels.
    pub font_size: i64,
    /// Update interval, in milliseconds.
    pub interval_ms: i64,
}

/// The configuration of one node: everything needed to build it.
#[derive(Debug, Clone)]
pub enum NodeConfig {
    Image(ImageConfig),
    Shader(ShaderConfig),
    Blend(BlendConfig),
    Text(TextConfig),
    Fps(FpsConfig),
}

/// One named node of a configuration. Names are unique within one node set;
/// the graph builder rejects duplicates.
#[derive(Debug, Clone)]
pub struct NodeEntry {
    pub name: String,
    pub config: NodeConfig,
}

/// Whether a node becomes a render pass of its own. Image nodes do not: they
/// are static attachment textures read by other passes.
pub open spec fn is_renderable(c: NodeConfig) -> bool {
    !(c is Image)
}

/// The node names a config samples as inputs, in sampler order. These are the
/// dependency edges of the graph.
pub open spec fn input_refs(c: NodeConfig) -> Seq<Seq<char>> {
    match c {
        NodeConfig::Shader(s) => s.inputs@.map_values(|n: String| n@),
        NodeConfig::Blend(b) => b.inputs@.map_values(|i: BlendInput| i.name@),
        _ => Seq::empty(),
    }
}

/// A link name as a (possibly empty) sequence of references.
pub open spec fn opt_ref(o: Option<Seq<char>>) -> Seq<Seq<char>> {
    match o {
        Some(s) => seq![s],
        None => Seq::empty(),
    }
}

/// The node names a config's parameters link to. These must exist but are
/// live-value lookups, not sampling edges.
pub open spec fn param_refs(c: NodeConfig) -> Seq<Seq<char>> {
    match c {
        NodeConfig::Text(t) => opt_ref(link_of(t.text)) + opt_ref(link_of(t.position)) + opt_ref(
            link_of(t.color),
        ),
        NodeConfig::Fps(f) => opt_ref(link_of(f.color)),
        _ => Seq::empty(),
    }
}

} // verus!
