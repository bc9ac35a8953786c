use vstd::prelude::*;

verus! {

/// What a surface is drawn with: a colour of four channels, each scaled
/// to 0..=255, and the noise and fluid settings.
#[derive(PartialEq, Eq, Hash, Debug)]
pub struct Material {
    pub color: [i32; 4],
    pub noise: i32,
    pub noise_x: i32,
    pub noise_y: i32,
    pub noise_z: i32,
    pub fluid: i32,
}

} // verus!
