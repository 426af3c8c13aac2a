use gltf_unlit_generator::binary32::Binary32;
use gltf_unlit_generator::material::{AlphaMode, MaterialDescriptor};
use gltf_unlit_generator::raster::{Raster, Rgba};
use gltf_unlit_generator::sink::{
    output_bytes, output_extension, output_filename, output_layout, PixelLayout,
};
use gltf_unlit_generator::text::decimal_string;

fn material(name: Option<&str>, index: u32, alpha_mode: AlphaMode) -> MaterialDescriptor {
    let one = Binary32::from_bits(0x3F80_0000);
    MaterialDescriptor {
        name: name.map(String::from),
        index,
        alpha_mode,
        base_color_factor: [one; 4],
        base_color_channel: None,
        occlusion_strength: one,
        occlusion_channel: None,
        emissive_factor: [one; 3],
        emissive_channel: None,
    }
}

#[test]
fn opaque_materials_get_jpg_and_the_others_png() {
    assert_eq!(output_extension(AlphaMode::Opaque), "jpg");
    assert_eq!(output_extension(AlphaMode::Mask), "png");
    assert_eq!(output_extension(AlphaMode::Blend), "png");
    assert_eq!(output_filename(&material(Some("wall"), 3, AlphaMode::Opaque)), "wall_unlit.jpg");
    assert_eq!(output_filename(&material(Some("wall"), 3, AlphaMode::Blend)), "wall_unlit.png");
    assert_eq!(output_filename(&material(Some("wall"), 3, AlphaMode::Mask)), "wall_unlit.png");
}

#[test]
fn unnamed_materials_are_named_by_index() {
    assert_eq!(output_filename(&material(None, 0, AlphaMode::Opaque)), "unlit_0.jpg");
    assert_eq!(output_filename(&material(None, 7, AlphaMode::Mask)), "unlit_7.png");
    assert_eq!(output_filename(&material(None, 10, AlphaMode::Blend)), "unlit_10.png");
    assert_eq!(
        output_filename(&material(None, 4294967295, AlphaMode::Opaque)),
        "unlit_4294967295.jpg"
    );
}

#[test]
fn names_are_taken_as_they_are() {
    assert_eq!(output_filename(&material(Some(""), 1, AlphaMode::Opaque)), "_unlit.jpg");
    assert_eq!(
        output_filename(&material(Some("Métal brossé.001"), 1, AlphaMode::Blend)),
        "Métal brossé.001_unlit.png"
    );
}

#[test]
fn numbers_are_written_in_decimal() {
    for n in [0u32, 1, 9, 10, 11, 99, 100, 101, 12345, 1000000, 4294967295] {
        assert_eq!(decimal_string(n), n.to_string());
    }
}

#[test]
fn alpha_is_dropped_for_opaque_output_only() {
    let img = Raster::new(
        1,
        2,
        vec![Rgba { r: 1, g: 2, b: 3, a: 4 }, Rgba { r: 5, g: 6, b: 7, a: 8 }],
    )
    .unwrap();
    assert_eq!(output_layout(AlphaMode::Opaque), PixelLayout::Rgb);
    assert_eq!(output_layout(AlphaMode::Mask), PixelLayout::Rgba);
    assert_eq!(output_layout(AlphaMode::Blend), PixelLayout::Rgba);
    assert_eq!(output_bytes(&img, AlphaMode::Opaque), vec![1, 2, 3, 5, 6, 7]);
    assert_eq!(output_bytes(&img, AlphaMode::Mask), vec![1, 2, 3, 4, 5, 6, 7, 8]);
    assert_eq!(output_bytes(&img, AlphaMode::Blend), vec![1, 2, 3, 4, 5, 6, 7, 8]);
}
