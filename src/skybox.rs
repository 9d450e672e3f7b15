use vstd::prelude::*;

verus! {

/// Procedural sky shown where a ray meets no geometry. Its colors are
/// computed from the ray direction and the time of day alone, so it holds
/// no state.
#[derive(Clone, Copy, Debug, PartialEq, Eq)]
pub struct Skybox {}

impl Skybox {
    pub fn new() -> (r: Skybox)
        ensures
            r == (Skybox {}),
    {
        Skybox {}
    }
}

impl Default for Skybox {
    fn default() -> (r: Skybox)
        ensures
            r == (Skybox {}),
    {
        Skybox::new()
    }
}

} // verus!
