//! Renderer seam reserved for alternative backends, and the choice of surface configuration
//! among the capabilities a surface offers.
use vstd::prelude::*;

verus! {

/// The `wgpu` renderer backend.
#[derive(Debug, Clone, Copy)]
pub struct WgpuRenderer;

impl WgpuRenderer {
    pub fn new() -> (r: Self)
        ensures
            r == WgpuRenderer,
    {
        Self
    }
}

/// `i` is the surface choice among capabilities flagged by `wanted`: the first wanted one, or
/// the first one offered when none is wanted.
pub open spec fn wanted_or_first(wanted: Seq<bool>, i: nat) -> bool {
    &&& i < wanted.len()
    &&& (wanted[i as int] && forall|j: int| 0 <= j < i ==> !wanted[j]) || (i == 0 && forall|
        j: int,
    |
        0 <= j < wanted.len() ==> !wanted[j])
}

/// The capability to configure the surface with, among those offered: `wanted[i]` says whether
/// the `i`-th offered one is among the preferred ones. The first preferred one is chosen, else
/// the first offered; `None` when nothing is offered (the caller then keeps its default).
///
/// Used for the surface format (preferred: the 8-bit BGRA/RGBA formats, sRGB or not) and the
/// present mode (preferred: FIFO, the default when nothing is offered).
pub fn choose_surface_capability(wanted: &Vec<bool>) -> (r: Option<usize>)
    ensures
        r is None <==> wanted@.len() == 0,
        r matches Some(i) ==> wanted_or_first(wanted@, i as nat),
{
    let mut i: usize = 0;
    while i < wanted.len()
        invariant
            i <= wanted@.len(),
            forall|j: int| 0 <= j < i ==> !wanted@[j],
        decreases wanted@.len() - i,
    {
        if wanted[i] {
            return Some(i);
        }
        i = i + 1;
    }
    if wanted.len() == 0 {
        None
    } else {
        Some(0)
    }
}

} // verus!
