//! Faces of an axis-aligned box and the material each one shows.
use vstd::prelude::*;

verus! {

/// A face of an axis-aligned box, named by its outward normal.
#[derive(Clone, Copy, Debug, PartialEq, Eq, Structural)]
pub enum Face {
    NegX,
    PosX,
    NegY,
    PosY,
    NegZ,
    PosZ,
}

/// The face a hit point lies on, given which of the box's bounding planes it
/// touches. When it touches several (an edge or a corner) the first in the
/// order -x, +x, -y, +y, -z wins; a point on none of those is on +z.
pub fn face_at(on_min_x: bool, on_max_x: bool, on_min_y: bool, on_max_y: bool, on_min_z: bool) -> (f:
    Face)
    ensures
        f == if on_min_x {
            Face::NegX
        } else if on_max_x {
            Face::PosX
        } else if on_min_y {
            Face::NegY
        } else if on_max_y {
            Face::PosY
        } else if on_min_z {
            Face::NegZ
        } else {
            Face::PosZ
        },
{
    if on_min_x {
        Face::NegX
    } else if on_max_x {
        Face::PosX
    } else if on_min_y {
        Face::NegY
    } else if on_max_y {
        Face::PosY
    } else if on_min_z {
        Face::NegZ
    } else {
        Face::PosZ
    }
}

/// The materials of a box: one for every face, and optional overrides for
/// the top face, the four side faces and the bottom face.
#[derive(Clone, Debug)]
pub struct FaceMaterials<M> {
    pub base: M,
    pub top: Option<M>,
    pub side: Option<M>,
    pub bottom: Option<M>,
}

impl<M> FaceMaterials<M> {
    /// The material shown on `face`: its override where one is set, else the
    /// material of every face.
    pub open spec fn shown_on(&self, face: Face) -> M {
        let chosen = match face {
            Face::PosY => self.top,
            Face::NegY => self.bottom,
            _ => self.side,
        };
        match chosen {
            Some(m) => m,
            None => self.base,
        }
    }

    /// One material on every face.
    pub fn uniform(base: M) -> (fm: FaceMaterials<M>)
        ensures
            fm.base == base,
            fm.top is None,
            fm.side is None,
            fm.bottom is None,
    {
        FaceMaterials { base, top: None, side: None, bottom: None }
    }

    /// The material shown on `face`.
    pub fn material_for(&self, face: Face) -> (m: &M)
        ensures
            *m == self.shown_on(face),
    {
        let chosen = match face {
            Face::PosY => &self.top,
            Face::NegY => &self.bottom,
            _ => &self.side,
        };
        match chosen {
            Some(m) => m,
            None => &self.base,
        }
    }
}

} // verus!
