use vstd::prelude::*;
use rand::Rng;

verus! {

/// Bounces after which a path contributes black.
pub const MAX_RECURSION_DEPTH: u32 = 5;

/// The capability set of a scene object: how the integrator treats a hit on it.
#[derive(Clone, Copy, Debug, PartialEq, Eq, Structural)]
pub struct Surface {
    pub opaque: bool,
    pub mirror: bool,
    pub transparent: bool,
    pub light_source: bool,
}

/// What the integrator does with a hit.
#[derive(Clone, Copy, Debug, PartialEq, Eq, Structural)]
pub enum ShadingStep {
    /// Contribute nothing.
    Black,
    /// Contribute the light's own radiance.
    Emit,
    /// Direct lighting from one light, plus indirect lighting.
    Diffuse,
    /// Follow the mirrored ray.
    Reflect,
    /// Follow the refracted ray (weighted against the reflected one).
    Refract,
}

/// The dispatch of the integrator at recursion depth `depth`: black past
/// `max_depth`; else a light source's radiance unless the ray is an indirect
/// bounce; else by material, opaque before mirror before transparent.
pub open spec fn step_of(surface: Surface, depth: int, max_depth: int, indirect_light: bool) -> ShadingStep {
    if depth > max_depth {
        ShadingStep::Black
    } else if surface.light_source && !indirect_light {
        ShadingStep::Emit
    } else if surface.opaque {
        ShadingStep::Diffuse
    } else if surface.mirror {
        ShadingStep::Reflect
    } else if surface.transparent {
        ShadingStep::Refract
    } else {
        ShadingStep::Black
    }
}

pub fn shading_step(surface: &Surface, depth: u32, max_depth: u32, indirect_light: bool) -> (r:
    ShadingStep)
    ensures
        r == step_of(*surface, depth as int, max_depth as int, indirect_light),
{
    if depth > max_depth {
        ShadingStep::Black
    } else if surface.light_source && !indirect_light {
        ShadingStep::Emit
    } else if surface.opaque {
        ShadingStep::Diffuse
    } else if surface.mirror {
        ShadingStep::Reflect
    } else if surface.transparent {
        ShadingStep::Refract
    } else {
        ShadingStep::Black
    }
}

/// The first step for a camera ray's hit: black when the scene has no light,
/// else the dispatch at depth one for a direct ray.
pub fn calculate_color_step(surface: &Surface, light_count: usize, max_depth: u32) -> (r: ShadingStep)
    ensures
        r == (if light_count == 0 {
            ShadingStep::Black
        } else {
            step_of(*surface, 1, max_depth as int, false)
        }),
{
    if light_count == 0 {
        ShadingStep::Black
    } else {
        shading_step(surface, 1, max_depth, false)
    }
}

/// With a recursion limit of zero, every hit renders black.
pub proof fn lemma_zero_depth_renders_black(surface: Surface, light_count: nat, depth: int, indirect_light: bool)
    requires
        depth >= 1,
    ensures
        step_of(surface, depth, 0, indirect_light) == ShadingStep::Black,
        (if light_count == 0 {
            ShadingStep::Black
        } else {
            step_of(surface, 1, 0, false)
        }) == ShadingStep::Black,
{
}

/// Relies on `rand::Rng::gen_range` over `thread_rng()`: a value in `0..n`,
/// which it panics on only when the range is empty.
#[verifier::external_body]
fn random_index(n: usize) -> (r: usize)
    requires
        n > 0,
    ensures
        r < n,
{
    rand::thread_rng().gen_range(0..n)
}

/// The light source that next-event estimation samples: one of the
/// `light_count` lights, drawn uniformly; none when there are none.
pub fn pick_light_source(light_count: usize) -> (r: Option<usize>)
    ensures
        r is None <==> light_count == 0,
        r matches Some(i) ==> i < light_count,
{
    if light_count == 0 {
        None
    } else {
        Some(random_index(light_count))
    }
}

/// Paths traced per pixel: the first enabled of anti-aliasing, Fresnel and
/// indirect lighting gives its count; with none of them, one.
pub fn ray_paths(
    antialiasing: Option<u32>,
    fresnel: Option<u32>,
    indirect_lighting: Option<u32>,
) -> (r: u32)
    ensures
        r == (match (antialiasing, fresnel, indirect_lighting) {
            (Some(k), _, _) => k,
            (None, Some(k), _) => k,
            (None, None, Some(k)) => k,
            (None, None, None) => 1,
        }),
{
    match (antialiasing, fresnel, indirect_lighting) {
        (Some(k), _, _) => k,
        (None, Some(k), _) => k,
        (None, None, Some(k)) => k,
        (None, None, None) => 1,
    }
}

} // verus!
