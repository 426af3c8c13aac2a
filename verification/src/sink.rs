//! What the composites are written as: the names of the files, and the
//! bytes that go to the encoder.

use crate::material::{AlphaMode, MaterialDescriptor};
use crate::raster::{rgb_bytes_of, rgba_bytes_of, Raster};
use crate::text::{decimal, decimal_string};
use vstd::prelude::*;
use vstd::string::*;

verus! {

/// The extension of the output file: a material without transparency is
/// written in a format that keeps no alpha, any other in one that does.
pub open spec fn extension_of(alpha_mode: AlphaMode) -> Seq<char> {
    match alpha_mode {
        AlphaMode::Opaque => "jpg"@,
        _ => "png"@,
    }
}

/// The file name for a material with the given name, index and alpha mode.
pub open spec fn filename_of(name: Option<Seq<char>>, index: u32, alpha_mode: AlphaMode) -> Seq<
    char,
> {
    match name {
        Some(n) => n + "_unlit."@ + extension_of(alpha_mode),
        None => "unlit_"@ + decimal(index as nat) + "."@ + extension_of(alpha_mode),
    }
}

/// The name of a material as a sequence of characters, if it has one.
pub open spec fn name_of(mat: MaterialDescriptor) -> Option<Seq<char>> {
    match mat.name {
        Some(n) => Some(n@),
        None => None,
    }
}

/// The extension of the output file for an alpha mode: `jpg` or `png`.
pub fn output_extension(alpha_mode: AlphaMode) -> (ext: &'static str)
    ensures
        ext@ == extension_of(alpha_mode),
{
    match alpha_mode {
        AlphaMode::Opaque => "jpg",
        _ => "png",
    }
}

/// The name of the output file of a material: its name followed by
/// `_unlit`, or `unlit_` followed by its index if it has no name, then the
/// extension that its alpha mode calls for.
pub fn output_filename(mat: &MaterialDescriptor) -> (filename: String)
    ensures
        filename@ == filename_of(name_of(*mat), mat.index, mat.alpha_mode),
{
    let extension = output_extension(mat.alpha_mode);
    match &mat.name {
        Some(name) => {
            let mut filename = name.clone();
            filename.append("_unlit.");
            filename.append(extension);
            filename
        },
        None => {
            let mut filename = String::from_str("unlit_");
            filename.append(decimal_string(mat.index).as_str());
            filename.append(".");
            filename.append(extension);
            filename
        },
    }
}

/// The channels that an output file holds.
#[derive(Clone, Copy, Debug, PartialEq, Eq, Structural)]
pub enum PixelLayout {
    /// Red, green and blue: for a material without transparency.
    Rgb,
    /// Red, green, blue and alpha.
    Rgba,
}

/// The channels that the output file of a material holds: alpha is dropped
/// for an opaque material and kept for any other.
pub open spec fn layout_of(alpha_mode: AlphaMode) -> PixelLayout {
    match alpha_mode {
        AlphaMode::Opaque => PixelLayout::Rgb,
        _ => PixelLayout::Rgba,
    }
}

/// The bytes of `pixels` in the given layout.
pub open spec fn bytes_in(layout: PixelLayout, pixels: Seq<crate::raster::Rgba>) -> Seq<u8> {
    match layout {
        PixelLayout::Rgb => rgb_bytes_of(pixels),
        PixelLayout::Rgba => rgba_bytes_of(pixels),
    }
}

/// The channels that the output file of a material holds.
pub fn output_layout(alpha_mode: AlphaMode) -> (layout: PixelLayout)
    ensures
        layout == layout_of(alpha_mode),
{
    match alpha_mode {
        AlphaMode::Opaque => PixelLayout::Rgb,
        _ => PixelLayout::Rgba,
    }
}

/// The bytes of a composite as they go to the encoder: with alpha, or
/// without it for an opaque material.
pub fn output_bytes(img: &Raster, alpha_mode: AlphaMode) -> (bytes: Vec<u8>)
    ensures
        bytes@ == bytes_in(layout_of(alpha_mode), img@),
{
    match output_layout(alpha_mode) {
        PixelLayout::Rgb => img.rgb_bytes(),
        PixelLayout::Rgba => img.rgba_bytes(),
    }
}

} // verus!
