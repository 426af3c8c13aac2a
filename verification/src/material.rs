//! The description of one material, as the compositor reads it.

use crate::binary32::Binary32;
use vstd::prelude::*;

verus! {

/// How the alpha of a material is to be read.
#[derive(Clone, Copy, Debug, PartialEq, Eq, Structural)]
pub enum AlphaMode {
    Opaque,
    Mask,
    Blend,
}

/// Where the image of a channel map is kept.
#[derive(Clone, Debug, PartialEq, Eq)]
pub enum ChannelRef {
    /// A file of its own, named relative to the directory of the asset.
    External { uri: String },
    /// A range of one of the asset's buffers.
    Embedded,
}

/// One material: its factors, the channel maps it names, and what the
/// output file is named after.
#[derive(Clone, Debug, PartialEq, Eq)]
pub struct MaterialDescriptor {
    pub name: Option<String>,
    /// The position of the material in its document.
    pub index: u32,
    pub alpha_mode: AlphaMode,
    /// Red, green, blue and alpha factors of the base color.
    pub base_color_factor: [Binary32; 4],
    pub base_color_channel: Option<ChannelRef>,
    pub occlusion_strength: Binary32,
    pub occlusion_channel: Option<ChannelRef>,
    /// Red, green and blue factors of the emitted light.
    pub emissive_factor: [Binary32; 3],
    pub emissive_channel: Option<ChannelRef>,
}

} // verus!
