//! The per-draw uniform collection: a closed tagged value type covering
//! exactly the uniform kinds the engine binds (scalar, 2- and 4-vectors,
//! sampler references), structured names for each slot, and the ordered
//! storage a draw command carries.

use vstd::prelude::*;

verus! {

/// A two-component integer vector (positions, resolutions).
#[derive(Debug, Clone, Copy, PartialEq, Eq, Structural)]
pub struct Vec2i {
    pub x: i64,
    pub y: i64,
}

/// A four-component integer vector (colors, pointer state).
#[derive(Debug, Clone, Copy, PartialEq, Eq, Structural)]
pub struct Vec4i {
    pub x: i64,
    pub y: i64,
    pub z: i64,
    pub w: i64,
}

/// What a sampler uniform reads from: a static attachment texture, or the
/// render-target texture of another pass.
#[derive(Debug, Clone, Copy, PartialEq, Eq, Structural)]
pub enum SamplerRef {
    Attachment(usize),
    PassTexture(usize),
}

/// A uniform value bound for one draw.
#[derive(Debug, Clone, Copy, PartialEq, Eq, Structural)]
pub enum UniformValue {
    Scalar(i64),
    Vec2(Vec2i),
    Vec4(Vec4i),
    Sampler(SamplerRef),
}

/// The name of a uniform slot. Attachment samplers are `Texture(i)` in
/// attachment order; dependency samplers are `Buffer(i)` in dependency order.
#[derive(Debug, Clone, Copy, PartialEq, Eq, Structural)]
pub enum UniformName {
    Resolution,
    Time,
    Pointer,
    Texture(usize),
    Buffer(usize),
}

/// The ordered uniform list assembled fresh for each draw.
#[derive(Debug, Clone)]
pub struct UniformsStorageVec(pub Vec<(UniformName, UniformValue)>);

impl UniformsStorageVec {
    pub fn new() -> (r: Self)
        ensures
            r.0@ == Seq::<(UniformName, UniformValue)>::empty(),
    {
        UniformsStorageVec(Vec::new())
    }

    pub fn push(&mut self, name: UniformName, value: UniformValue)
        ensures
            final(self).0@ == old(self).0@.push((name, value)),
    {
        self.0.push((name, value));
    }
}

/// The pointer state a frame is rendered with: current position and, while a
/// drag is active, the drag origin (zero otherwise).
#[derive(Debug, Clone, Copy, PartialEq, Eq, Structural)]
pub struct PointerState {
    pub x: u32,
    pub y: u32,
    pub drag_x: u32,
    pub drag_y: u32,
}

/// Everything one frame is rendered with: elapsed milliseconds since graph
/// creation or the last reload, the pointer, and the visible surface size.
#[derive(Debug, Clone, Copy, PartialEq, Eq, Structural)]
pub struct FrameContext {
    pub time_ms: i64,
    pub pointer: PointerState,
    pub surface_width: u32,
    pub surface_height: u32,
}

/// The flipped vertical component: the window reports y downward, the render
/// target counts upward, so a coordinate within the target maps to
/// `height - y`. Values below the target (y > height) clamp to 0.
pub open spec fn spec_flip_y(height: u32, raw_y: u32) -> u32 {
    if raw_y <= height {
        (height - raw_y) as u32
    } else {
        0u32
    }
}

/// Flip a vertical window coordinate to the render target's convention.
pub fn flip_y(height: u32, raw_y: u32) -> (r: u32)
    ensures
        r == spec_flip_y(height, raw_y),
        raw_y <= height ==> r == height - raw_y,
{
    if raw_y <= height {
        height - raw_y
    } else {
        0
    }
}

/// The pointer uniform for a target of the given height: current and drag
/// positions with the vertical axis flipped.
pub open spec fn spec_pointer_uniform(p: PointerState, target_height: u32) -> Vec4i {
    Vec4i {
        x: p.x as i64,
        y: spec_flip_y(target_height, p.y) as i64,
        z: p.drag_x as i64,
        w: spec_flip_y(target_height, p.drag_y) as i64,
    }
}

/// Assemble the pointer uniform for a target of the given height.
pub fn pointer_uniform(p: PointerState, target_height: u32) -> (r: Vec4i)
    ensures
        r == spec_pointer_uniform(p, target_height),
{
    Vec4i {
        x: p.x as i64,
        y: flip_y(target_height, p.y) as i64,
        z: p.drag_x as i64,
        w: flip_y(target_height, p.drag_y) as i64,
    }
}

} // verus!
