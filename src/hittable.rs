use vstd::prelude::*;

verus! {

/// Which side of a surface a ray struck.
#[derive(Clone, Copy, Debug, PartialEq, Eq, Structural)]
pub enum Face {
    Front,
    Back,
}

impl Face {
    /// The face a ray strikes, given whether the dot product of the ray's
    /// direction with the outward normal is non-negative: a ray that runs
    /// along or away from the outward normal hits the back face (the tangent
    /// case counts as a back-face hit).
    pub fn of_incidence(dot_non_negative: bool) -> (r: Face)
        ensures
            r == (if dot_non_negative { Face::Back } else { Face::Front }),
    {
        if dot_non_negative {
            Face::Back
        } else {
            Face::Front
        }
    }
}

} // verus!
