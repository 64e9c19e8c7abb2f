//! The per-frame executor: walks the graph dependencies-first and emits an
//! ordered list of draw commands, evaluating every pass at most once per
//! frame. Terminal passes are drawn to the visible surface, every other pass
//! to its own backing texture; each command carries the exact uniform list
//! its draw binds.

use vstd::prelude::*;

verus! {

use crate::graph::Graph;
use crate::graph::RenderPass;
use crate::uniforms::FrameContext;
use crate::uniforms::SamplerRef;
use crate::uniforms::UniformName;
use crate::uniforms::UniformValue;
use crate::uniforms::UniformsStorageVec;
use crate::uniforms::Vec2i;
use crate::uniforms::pointer_uniform;
use crate::uniforms::spec_pointer_uniform;

/// One draw of a frame: the pass to run, whether it targets the visible
/// surface (true only for terminal passes) or its own backing texture, and
/// the uniforms bound for the draw.
#[derive(Debug)]
pub struct DrawCommand {
    pub pass: usize,
    pub to_surface: bool,
    pub uniforms: UniformsStorageVec,
}

/// The leading uniforms of every draw: the target's resolution, the elapsed
/// time, and the pointer with its vertical axis flipped to the target's
/// height.
pub open spec fn uniform_head(g: Graph, ctx: FrameContext, p: int, to_surface: bool) -> Seq<
    (UniformName, UniformValue),
> {
    let w: u32 = if to_surface {
        ctx.surface_width
    } else {
        g.passes@[p].width
    };
    let h: u32 = if to_surface {
        ctx.surface_height
    } else {
        g.passes@[p].height
    };
    seq![
        (UniformName::Resolution, UniformValue::Vec2(Vec2i { x: w as i64, y: h as i64 })),
        (UniformName::Time, UniformValue::Scalar(ctx.time_ms)),
        (UniformName::Pointer, UniformValue::Vec4(spec_pointer_uniform(ctx.pointer, h))),
    ]
}

/// The attachment samplers of a pass: `Texture(i)` in attachment order.
pub open spec fn uniform_textures(pass: RenderPass) -> Seq<(UniformName, UniformValue)> {
    Seq::new(
        pass.attachments@.len(),
        |k: int|
            (
                UniformName::Texture(k as usize),
                UniformValue::Sampler(SamplerRef::Attachment(pass.attachments@[k])),
            ),
    )
}

/// The dependency samplers of a pass: `Buffer(i)` in dependency order.
pub open spec fn uniform_buffers(pass: RenderPass) -> Seq<(UniformName, UniformValue)> {
    Seq::new(
        pass.depends@.len(),
        |k: int|
            (
                UniformName::Buffer(k as usize),
                UniformValue::Sampler(SamplerRef::PassTexture(pass.depends@[k])),
            ),
    )
}

/// Exactly the uniforms one draw binds: resolution, time, flipped pointer,
/// then the attachment samplers, then the dependency samplers.
pub open spec fn uniform_list(g: Graph, ctx: FrameContext, p: int, to_surface: bool) -> Seq<
    (UniformName, UniformValue),
> {
    uniform_head(g, ctx, p, to_surface) + uniform_textures(g.passes@[p]) + uniform_buffers(
        g.passes@[p],
    )
}

/// Assemble the uniform list for one draw of pass `p`.
fn build_uniforms(g: &Graph, ctx: FrameContext, p: usize, to_surface: bool) -> (u:
    UniformsStorageVec)
    requires
        p < g.passes@.len(),
    ensures
        u.0@ == uniform_list(*g, ctx, p as int, to_surface),
{
    let h: u32 = if to_surface {
        ctx.surface_height
    } else {
        g.passes[p].height
    };
    let w: u32 = if to_surface {
        ctx.surface_width
    } else {
        g.passes[p].width
    };
    let mut u = UniformsStorageVec::new();
    u.push(UniformName::Resolution, UniformValue::Vec2(Vec2i { x: w as i64, y: h as i64 }));
    u.push(UniformName::Time, UniformValue::Scalar(ctx.time_ms));
    u.push(UniformName::Pointer, UniformValue::Vec4(pointer_uniform(ctx.pointer, h)));
    proof {
        assert(u.0@ =~= uniform_head(*g, ctx, p as int, to_surface));
    }
    let na = g.passes[p].attachments.len();
    let mut k: usize = 0;
    while k < na
        invariant
            p < g.passes@.len(),
            na == g.passes@[p as int].attachments@.len(),
            k <= na,
            u.0@ == uniform_head(*g, ctx, p as int, to_surface) + Seq::new(
                k as nat,
                |kk: int|
                    (
                        UniformName::Texture(kk as usize),
                        UniformValue::Sampler(
                            SamplerRef::Attachment(g.passes@[p as int].attachments@[kk]),
                        ),
                    ),
            ),
        decreases na - k,
    {
        u.push(
            UniformName::Texture(k),
            UniformValue::Sampler(SamplerRef::Attachment(g.passes[p].attachments[k])),
        );
        proof {
            assert(u.0@ =~= uniform_head(*g, ctx, p as int, to_surface) + Seq::new(
                (k + 1) as nat,
                |kk: int|
                    (
                        UniformName::Texture(kk as usize),
                        UniformValue::Sampler(
                            SamplerRef::Attachment(g.passes@[p as int].attachments@[kk]),
                        ),
                    ),
            ));
        }
        k += 1;
    }
    proof {
        assert(u.0@ =~= uniform_head(*g, ctx, p as int, to_surface) + uniform_textures(
            g.passes@[p as int],
        ));
    }
    let nd = g.passes[p].depends.len();
    let mut k2: usize = 0;
    while k2 < nd
        invariant
            p < g.passes@.len(),
            nd == g.passes@[p as int].depends@.len(),
            k2 <= nd,
            u.0@ == uniform_head(*g, ctx, p as int, to_surface) + uniform_textures(
                g.passes@[p as int],
            ) + Seq::new(
                k2 as nat,
                |kk: int|
                    (
                        UniformName::Buffer(kk as usize),
                        UniformValue::Sampler(
                            SamplerRef::PassTexture(g.passes@[p as int].depends@[kk]),
                        ),
                    ),
            ),
        decreases nd - k2,
    {
        u.push(
            UniformName::Buffer(k2),
            UniformValue::Sampler(SamplerRef::PassTexture(g.passes[p].depends[k2])),
        );
        proof {
            assert(u.0@ =~= uniform_head(*g, ctx, p as int, to_surface) + uniform_textures(
                g.passes@[p as int],
            ) + Seq::new(
                (k2 + 1) as nat,
                |kk: int|
                    (
                        UniformName::Buffer(kk as usize),
                        UniformValue::Sampler(
                            SamplerRef::PassTexture(g.passes@[p as int].depends@[kk]),
                        ),
                    ),
            ));
        }
        k2 += 1;
    }
    proof {
        assert(u.0@ =~= uniform_list(*g, ctx, p as int, to_surface));
    }
    u
}

/// Every dependency of the pass of command `c` was drawn to its own texture
/// earlier in the plan.
pub open spec fn has_texture_cmd_before(cmds: Seq<DrawCommand>, c: int, x: int) -> bool {
    exists|c2: int|
        0 <= c2 < c && c2 < cmds.len() && (#[trigger] cmds[c2]).pass == x && !cmds[c2].to_surface
}

pub open spec fn deps_drawn_before(g: Graph, cmds: Seq<DrawCommand>, c: int) -> bool {
    forall|k: int|
        0 <= k < g.passes@[cmds[c].pass as int].depends@.len() ==> has_texture_cmd_before(
            cmds,
            c,
            (#[trigger] g.passes@[cmds[c].pass as int].depends@[k]) as int,
        )
}

/// The invariant of a frame in progress: flags mark the non-terminal passes
/// already drawn to their textures; every emitted command names a real pass,
/// targets the surface exactly for terminal passes, carries exactly its
/// uniform list, no pass is drawn twice, and every command's dependencies
/// were drawn to their textures earlier in the plan.
pub open spec fn plan_inv(
    g: Graph,
    ctx: FrameContext,
    flags: Seq<bool>,
    cmds: Seq<DrawCommand>,
) -> bool {
    &&& flags.len() == g.passes@.len()
    &&& forall|x: int| 0 <= x < flags.len() && #[trigger] flags[x] ==> !g.terminal@[x]
    &&& forall|c: int| 0 <= c < cmds.len() ==> (#[trigger] cmds[c]).pass < g.passes@.len()
    &&& forall|c: int|
        0 <= c < cmds.len() ==> ((#[trigger] cmds[c]).to_surface <==> g.terminal@[cmds[c].pass as int])
    &&& forall|c: int|
        0 <= c < cmds.len() ==> (#[trigger] cmds[c]).uniforms.0@ == uniform_list(
            g,
            ctx,
            cmds[c].pass as int,
            cmds[c].to_surface,
        )
    &&& forall|a: int, b: int|
        0 <= a < b < cmds.len() ==> (#[trigger] cmds[a]).pass != (#[trigger] cmds[b]).pass
    &&& forall|c: int|
        0 <= c < cmds.len() && !(#[trigger] cmds[c]).to_surface ==> flags[cmds[c].pass as int]
    &&& forall|x: int|
        0 <= x < flags.len() && #[trigger] flags[x] ==> exists|c: int|
            0 <= c < cmds.len() && (#[trigger] cmds[c]).pass == x && !cmds[c].to_surface
    &&& forall|c: int| 0 <= c < cmds.len() ==> #[trigger] deps_drawn_before(g, cmds, c)
}

/// Draw every dependency of pass `p` that is not yet drawn this frame.
fn render_deps(
    g: &Graph,
    ctx: FrameContext,
    p: usize,
    flags: &mut Vec<bool>,
    cmds: &mut Vec<DrawCommand>,
)
    requires
        g.wf(),
        p < g.passes@.len(),
        plan_inv(*g, ctx, old(flags)@, old(cmds)@),
    ensures
        plan_inv(*g, ctx, final(flags)@, final(cmds)@),
        final(flags)@.len() == old(flags)@.len(),
        forall|x: int|
            0 <= x < old(flags)@.len() && old(flags)@[x] ==> #[trigger] final(flags)@[x],
        old(cmds)@.len() <= final(cmds)@.len(),
        forall|c: int| 0 <= c < old(cmds)@.len() ==> #[trigger] final(cmds)@[c] == old(cmds)@[c],
        forall|c: int|
            old(cmds)@.len() <= c < final(cmds)@.len() ==> !(#[trigger] final(cmds)@[c]).to_surface,
        forall|k: int|
            0 <= k < g.passes@[p as int].depends@.len() ==> final(flags)@[(
            #[trigger] g.passes@[p as int].depends@[k]) as int],
    decreases g.rank@[p as int], 0int,
{
    let dl = g.passes[p].depends.len();
    let mut k: usize = 0;
    while k < dl
        invariant
            g.wf(),
            p < g.passes@.len(),
            dl == g.passes@[p as int].depends@.len(),
            k <= dl,
            plan_inv(*g, ctx, flags@, cmds@),
            flags@.len() == old(flags)@.len(),
            forall|x: int| 0 <= x < old(flags)@.len() && old(flags)@[x] ==> #[trigger] flags@[x],
            old(cmds)@.len() <= cmds@.len(),
            forall|c: int| 0 <= c < old(cmds)@.len() ==> #[trigger] cmds@[c] == old(cmds)@[c],
            forall|c: int|
                old(cmds)@.len() <= c < cmds@.len() ==> !(#[trigger] cmds@[c]).to_surface,
            forall|kk: int|
                0 <= kk < k ==> flags@[(#[trigger] g.passes@[p as int].depends@[kk]) as int],
        decreases dl - k,
    {
        let d = g.passes[p].depends[k];
        proof {
            assert(g.consumed(d as int)) by {
                assert(g.passes@[p as int].depends@[k as int] == d);
            }
            assert(!g.terminal@[d as int]);
            assert(g.rank@[d as int] < g.rank@[p as int]);
        }
        if !flags[d] {
            render_dep(g, ctx, d, flags, cmds);
        }
        k += 1;
    }
}

/// Draw pass `p` to its own backing texture, dependencies first, unless it
/// was already drawn this frame.
fn render_dep(
    g: &Graph,
    ctx: FrameContext,
    p: usize,
    flags: &mut Vec<bool>,
    cmds: &mut Vec<DrawCommand>,
)
    requires
        g.wf(),
        p < g.passes@.len(),
        !g.terminal@[p as int],
        plan_inv(*g, ctx, old(flags)@, old(cmds)@),
    ensures
        plan_inv(*g, ctx, final(flags)@, final(cmds)@),
        final(flags)@.len() == old(flags)@.len(),
        forall|x: int|
            0 <= x < old(flags)@.len() && old(flags)@[x] ==> #[trigger] final(flags)@[x],
        old(cmds)@.len() <= final(cmds)@.len(),
        forall|c: int| 0 <= c < old(cmds)@.len() ==> #[trigger] final(cmds)@[c] == old(cmds)@[c],
        forall|c: int|
            old(cmds)@.len() <= c < final(cmds)@.len() ==> !(#[trigger] final(cmds)@[c]).to_surface,
        final(flags)@[p as int],
    decreases g.rank@[p as int], 1int,
{
    if flags[p] {
        return ;
    }
    render_deps(g, ctx, p, flags, cmds);
    if flags[p] {
        return ;
    }
    let u = build_uniforms(g, ctx, p, false);
    let ghost pre_cmds = cmds@;
    let ghost pre_flags = flags@;
    cmds.push(DrawCommand { pass: p, to_surface: false, uniforms: u });
    flags[p] = true;
    proof {
        lemma_push_texture_cmd(*g, ctx, pre_flags, pre_cmds, cmds@, flags@, p as int);
    }
}

/// Pushing a texture draw for an unflagged, fully prepared pass and setting
/// its flag preserves the frame invariant.
#[verifier::spinoff_prover]
#[verifier::rlimit(100)]
proof fn lemma_push_texture_cmd(
    g: Graph,
    ctx: FrameContext,
    pre_flags: Seq<bool>,
    pre_cmds: Seq<DrawCommand>,
    cmds: Seq<DrawCommand>,
    flags: Seq<bool>,
    p: int,
)
    requires
        g.wf(),
        0 <= p < g.passes@.len(),
        !g.terminal@[p],
        plan_inv(g, ctx, pre_flags, pre_cmds),
        !pre_flags[p],
        forall|k: int|
            0 <= k < g.passes@[p].depends@.len() ==> pre_flags[(
            #[trigger] g.passes@[p].depends@[k]) as int],
        cmds.len() == pre_cmds.len() + 1,
        forall|c: int| 0 <= c < pre_cmds.len() ==> #[trigger] cmds[c] == pre_cmds[c],
        cmds.last().pass == p,
        !cmds.last().to_surface,
        cmds.last().uniforms.0@ == uniform_list(g, ctx, p, false),
        flags == pre_flags.update(p, true),
    ensures
        plan_inv(g, ctx, flags, cmds),
{
    let nc = pre_cmds.len() as int;
    assert forall|c: int| 0 <= c < cmds.len() implies (#[trigger] cmds[c]).pass < g.passes@.len()
        && (cmds[c].to_surface <==> g.terminal@[cmds[c].pass as int]) && cmds[c].uniforms.0@
        == uniform_list(g, ctx, cmds[c].pass as int, cmds[c].to_surface) && (!cmds[c].to_surface
        ==> flags[cmds[c].pass as int]) by {
        if c < nc {
            assert(cmds[c] == pre_cmds[c]);
            if !pre_cmds[c].to_surface {
                assert(pre_flags[pre_cmds[c].pass as int]);
            }
        }
    }
    assert forall|a: int, b: int| 0 <= a < b < cmds.len() implies (#[trigger] cmds[a]).pass != (
    #[trigger] cmds[b]).pass by {
        if b == nc {
            assert(cmds[a] == pre_cmds[a]);
            if pre_cmds[a].to_surface {
                assert(g.terminal@[pre_cmds[a].pass as int]);
            } else {
                assert(pre_flags[pre_cmds[a].pass as int]);
            }
        }
    }
    assert forall|c: int| 0 <= c < cmds.len() implies #[trigger] deps_drawn_before(
        g,
        cmds,
        c,
    ) by {
        if c == nc {
            assert(cmds[c] == cmds.last());
            assert(cmds[c].pass == p);
            assert forall|k: int|
                0 <= k < g.passes@[cmds[c].pass as int].depends@.len() implies has_texture_cmd_before(
                cmds,
                c,
                (#[trigger] g.passes@[cmds[c].pass as int].depends@[k]) as int,
            ) by {
                let d = g.passes@[p].depends@[k];
                assert(0 <= d < pre_flags.len());
                assert(pre_flags[d as int]);
                let c2 = choose|c2: int|
                    0 <= c2 < pre_cmds.len() && (#[trigger] pre_cmds[c2]).pass == d
                        && !pre_cmds[c2].to_surface;
                assert(cmds[c2] == pre_cmds[c2]);
                assert(c2 < c && cmds[c2].pass == d && !cmds[c2].to_surface);
                assert(has_texture_cmd_before(cmds, c, d as int));
            }
        } else {
            assert(cmds[c] == pre_cmds[c]);
            assert(deps_drawn_before(g, pre_cmds, c));
            assert forall|k: int|
                0 <= k < g.passes@[cmds[c].pass as int].depends@.len() implies has_texture_cmd_before(
                cmds,
                c,
                (#[trigger] g.passes@[cmds[c].pass as int].depends@[k]) as int,
            ) by {
                let d = g.passes@[pre_cmds[c].pass as int].depends@[k];
                assert(has_texture_cmd_before(pre_cmds, c, d as int));
                let c2 = choose|c2: int|
                    0 <= c2 < c && c2 < pre_cmds.len() && (#[trigger] pre_cmds[c2]).pass == d as int
                        && !pre_cmds[c2].to_surface;
                assert(cmds[c2] == pre_cmds[c2]);
                assert(cmds[c2].pass == d && !cmds[c2].to_surface);
                assert(has_texture_cmd_before(cmds, c, d as int));
            }
        }
    }
    assert forall|x: int| 0 <= x < flags.len() && #[trigger] flags[x] implies exists|c: int|
        0 <= c < cmds.len() && (#[trigger] cmds[c]).pass == x && !cmds[c].to_surface by {
        if x == p {
            assert(cmds[nc].pass == x && !cmds[nc].to_surface);
        } else {
            assert(pre_flags[x]);
            let c = choose|c: int|
                0 <= c < pre_cmds.len() && (#[trigger] pre_cmds[c]).pass == x
                    && !pre_cmds[c].to_surface;
            assert(cmds[c] == pre_cmds[c]);
        }
    }
}

/// Pushing a surface draw for a terminal pass whose dependencies are all
/// drawn preserves the frame invariant, keeps every surface draw at a pass
/// below the scan position, and completes the scanned terminals.
#[verifier::spinoff_prover]
#[verifier::rlimit(100)]
proof fn lemma_push_surface_cmd(
    g: Graph,
    ctx: FrameContext,
    pre_flags: Seq<bool>,
    pre_cmds: Seq<DrawCommand>,
    cmds: Seq<DrawCommand>,
    t: int,
)
    requires
        g.wf(),
        0 <= t < g.passes@.len(),
        g.terminal@[t],
        plan_inv(g, ctx, pre_flags, pre_cmds),
        forall|c: int|
            0 <= c < pre_cmds.len() && (#[trigger] pre_cmds[c]).to_surface ==> pre_cmds[c].pass < t,
        forall|k: int|
            0 <= k < g.passes@[t].depends@.len() ==> pre_flags[(
            #[trigger] g.passes@[t].depends@[k]) as int],
        cmds.len() == pre_cmds.len() + 1,
        forall|c: int| 0 <= c < pre_cmds.len() ==> #[trigger] cmds[c] == pre_cmds[c],
        cmds.last().pass == t,
        cmds.last().to_surface,
        cmds.last().uniforms.0@ == uniform_list(g, ctx, t, true),
    ensures
        plan_inv(g, ctx, pre_flags, cmds),
        forall|c: int|
            0 <= c < cmds.len() && (#[trigger] cmds[c]).to_surface ==> cmds[c].pass < t + 1,
{
    let nc = pre_cmds.len() as int;
    assert forall|c: int| 0 <= c < cmds.len() implies (#[trigger] cmds[c]).pass < g.passes@.len()
        && (cmds[c].to_surface <==> g.terminal@[cmds[c].pass as int]) && cmds[c].uniforms.0@
        == uniform_list(g, ctx, cmds[c].pass as int, cmds[c].to_surface) && (!cmds[c].to_surface
        ==> pre_flags[cmds[c].pass as int]) && (cmds[c].to_surface ==> cmds[c].pass < t + 1) by {
        if c < nc {
            assert(cmds[c] == pre_cmds[c]);
            if !pre_cmds[c].to_surface {
                assert(pre_flags[pre_cmds[c].pass as int]);
            } else {
                assert(pre_cmds[c].pass < t);
            }
        }
    }
    assert forall|a: int, b: int| 0 <= a < b < cmds.len() implies (#[trigger] cmds[a]).pass != (
    #[trigger] cmds[b]).pass by {
        if b == nc {
            assert(cmds[a] == pre_cmds[a]);
            if pre_cmds[a].to_surface {
                assert(pre_cmds[a].pass < t);
            } else {
                assert(pre_flags[pre_cmds[a].pass as int]);
                assert(!g.terminal@[pre_cmds[a].pass as int]);
            }
        }
    }
    assert forall|c: int| 0 <= c < cmds.len() implies #[trigger] deps_drawn_before(
        g,
        cmds,
        c,
    ) by {
        if c == nc {
            assert(cmds[c] == cmds.last());
            assert(cmds[c].pass == t);
            assert forall|k: int|
                0 <= k < g.passes@[cmds[c].pass as int].depends@.len() implies has_texture_cmd_before(
                cmds,
                c,
                (#[trigger] g.passes@[cmds[c].pass as int].depends@[k]) as int,
            ) by {
                let d = g.passes@[t].depends@[k];
                assert(0 <= d < pre_flags.len());
                assert(pre_flags[d as int]);
                let c2 = choose|c2: int|
                    0 <= c2 < pre_cmds.len() && (#[trigger] pre_cmds[c2]).pass == d
                        && !pre_cmds[c2].to_surface;
                assert(cmds[c2] == pre_cmds[c2]);
                assert(c2 < c && cmds[c2].pass == d && !cmds[c2].to_surface);
                assert(has_texture_cmd_before(cmds, c, d as int));
            }
        } else {
            assert(cmds[c] == pre_cmds[c]);
            assert(deps_drawn_before(g, pre_cmds, c));
            assert forall|k: int|
                0 <= k < g.passes@[cmds[c].pass as int].depends@.len() implies has_texture_cmd_before(
                cmds,
                c,
                (#[trigger] g.passes@[cmds[c].pass as int].depends@[k]) as int,
            ) by {
                let d = g.passes@[pre_cmds[c].pass as int].depends@[k];
                assert(has_texture_cmd_before(pre_cmds, c, d as int));
                let c2 = choose|c2: int|
                    0 <= c2 < c && c2 < pre_cmds.len() && (#[trigger] pre_cmds[c2]).pass == d as int
                        && !pre_cmds[c2].to_surface;
                assert(cmds[c2] == pre_cmds[c2]);
                assert(cmds[c2].pass == d && !cmds[c2].to_surface);
                assert(has_texture_cmd_before(cmds, c, d as int));
            }
        }
    }
    assert forall|x: int| 0 <= x < pre_flags.len() && #[trigger] pre_flags[x] implies exists|c: int|
        0 <= c < cmds.len() && (#[trigger] cmds[c]).pass == x && !cmds[c].to_surface by {
        let c = choose|c: int|
            0 <= c < pre_cmds.len() && (#[trigger] pre_cmds[c]).pass == x && !pre_cmds[c].to_surface;
        assert(cmds[c] == pre_cmds[c]);
    }
}

/// Walk the graph once for the frame: every terminal pass is drawn to the
/// visible surface, its dependencies depth-first to their own textures, and
/// no pass is evaluated more than once.
pub fn render_frame(g: &Graph, ctx: FrameContext) -> (r: Vec<DrawCommand>)
    requires
        g.wf(),
    ensures
        forall|a: int, b: int|
            0 <= a < b < r@.len() ==> (#[trigger] r@[a]).pass != (#[trigger] r@[b]).pass,
        forall|c: int| 0 <= c < r@.len() ==> (#[trigger] r@[c]).pass < g.passes@.len(),
        forall|c: int|
            0 <= c < r@.len() ==> ((#[trigger] r@[c]).to_surface <==> g.terminal@[r@[c].pass as int]),
        forall|c: int|
            0 <= c < r@.len() ==> (#[trigger] r@[c]).uniforms.0@ == uniform_list(
                *g,
                ctx,
                r@[c].pass as int,
                r@[c].to_surface,
            ),
        forall|c: int| 0 <= c < r@.len() ==> #[trigger] deps_drawn_before(*g, r@, c),
        forall|x: int|
            0 <= x < g.passes@.len() && #[trigger] g.terminal@[x] ==> exists|c: int|
                0 <= c < r@.len() && (#[trigger] r@[c]).pass == x && r@[c].to_surface,
{
    let np = g.passes.len();
    let mut flags: Vec<bool> = vec![false; np];
    let mut cmds: Vec<DrawCommand> = Vec::new();
    let mut t: usize = 0;
    while t < np
        invariant
            g.wf(),
            np == g.passes@.len(),
            t <= np,
            flags@.len() == np,
            plan_inv(*g, ctx, flags@, cmds@),
            forall|c: int|
                0 <= c < cmds@.len() && (#[trigger] cmds@[c]).to_surface ==> cmds@[c].pass < t,
            forall|x: int|
                0 <= x < t && #[trigger] g.terminal@[x] ==> exists|c: int|
                    0 <= c < cmds@.len() && (#[trigger] cmds@[c]).pass == x && cmds@[c].to_surface,
        decreases np - t,
    {
        if g.terminal[t] {
            let ghost head_cmds = cmds@;
            render_deps(g, ctx, t, &mut flags, &mut cmds);
            proof {
                assert forall|c: int|
                    0 <= c < cmds@.len() && (#[trigger] cmds@[c]).to_surface implies cmds@[c].pass
                    < t by {
                    assert(c < head_cmds.len());
                    assert(cmds@[c] == head_cmds[c]);
                }
            }
            let u = build_uniforms(g, ctx, t, true);
            let ghost pre_cmds = cmds@;
            let ghost pre_flags = flags@;
            cmds.push(DrawCommand { pass: t, to_surface: true, uniforms: u });
            proof {
                lemma_push_surface_cmd(*g, ctx, pre_flags, pre_cmds, cmds@, t as int);
                let nc = pre_cmds.len() as int;
                assert forall|x: int| 0 <= x < t + 1 && #[trigger] g.terminal@[x] implies exists|
                    c: int,
                |
                    0 <= c < cmds@.len() && (#[trigger] cmds@[c]).pass == x
                        && cmds@[c].to_surface by {
                    if x == t {
                        assert(cmds@[nc].pass == x && cmds@[nc].to_surface);
                    } else {
                        let c = choose|c: int|
                            0 <= c < head_cmds.len() && (#[trigger] head_cmds[c]).pass == x
                                && head_cmds[c].to_surface;
                        assert(pre_cmds[c] == head_cmds[c]);
                        assert(cmds@[c] == pre_cmds[c]);
                    }
                }
            }
        }
        t += 1;
    }
    cmds
}

} // verus!