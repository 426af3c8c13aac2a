use gltf_unlit_generator::binary32::Binary32;
use gltf_unlit_generator::compositor::generate_unlit;
use gltf_unlit_generator::loader::{channel_from_decode, load_if_exists, LoadStep};
use gltf_unlit_generator::material::{AlphaMode, ChannelRef, MaterialDescriptor};
use gltf_unlit_generator::options::validate_lighten;
use gltf_unlit_generator::raster::{Raster, Rgba};
use gltf_unlit_generator::report::{result_entries, MaterialFailure, RunReport};
use gltf_unlit_generator::sink::{output_bytes, output_filename};

fn num(x: f32) -> Binary32 {
    Binary32::from_bits(x.to_bits())
}

/// Stands in for the files of an asset: two maps, one of which is broken.
fn decode(uri: &str) -> Result<Raster, String> {
    match uri {
        "base.png" => Ok(Raster::from_pixel(2, 2, Rgba { r: 200, g: 100, b: 50, a: 255 })),
        "ao.png" => Ok(Raster::from_pixel(2, 2, Rgba { r: 255, g: 255, b: 255, a: 255 })),
        "wide.png" => Ok(Raster::from_pixel(4, 1, Rgba { r: 9, g: 9, b: 9, a: 255 })),
        other => Err(format!("cannot read {}", other)),
    }
}

fn load(reference: &Option<ChannelRef>, warnings: &mut Vec<String>) -> Option<Raster> {
    let loaded = match load_if_exists(reference) {
        LoadStep::Done(loaded) => loaded,
        LoadStep::Open { uri } => channel_from_decode(decode(&uri)),
    };
    if let Some(w) = loaded.warning {
        warnings.push(w);
    }
    loaded.map
}

fn external(uri: &str) -> Option<ChannelRef> {
    Some(ChannelRef::External { uri: String::from(uri) })
}

fn material(
    name: Option<&str>,
    index: u32,
    alpha_mode: AlphaMode,
    base: Option<ChannelRef>,
    occlusion: Option<ChannelRef>,
    emissive: Option<ChannelRef>,
) -> MaterialDescriptor {
    MaterialDescriptor {
        name: name.map(String::from),
        index,
        alpha_mode,
        base_color_factor: [num(1.0), num(0.5), num(1.0), num(1.0)],
        base_color_channel: base,
        occlusion_strength: num(1.0),
        occlusion_channel: occlusion,
        emissive_factor: [num(0.0), num(0.0), num(0.0)],
        emissive_channel: emissive,
    }
}

#[test]
fn a_run_reports_every_material_in_order() {
    let lighten = validate_lighten(num(0.0)).unwrap();
    let materials = vec![
        material(Some("wall"), 0, AlphaMode::Opaque, external("base.png"), external("ao.png"), None),
        material(None, 1, AlphaMode::Blend, external("base.png"), external("wide.png"), None),
        material(None, 2, AlphaMode::Mask, external("missing.png"), Some(ChannelRef::Embedded), None),
        material(None, 3, AlphaMode::Mask, external("missing.png"), external("ao.png"), None),
    ];
    let mut warnings = Vec::new();
    let mut outcomes = Vec::new();
    let mut written: Vec<(String, Vec<u8>)> = Vec::new();
    for mat in materials.iter() {
        let base = load(&mat.base_color_channel, &mut warnings);
        let occlusion = load(&mat.occlusion_channel, &mut warnings);
        let emissive = load(&mat.emissive_channel, &mut warnings);
        let outcome = generate_unlit(mat, base, occlusion, emissive, lighten)
            .map_err(MaterialFailure::Dimensions)
            .map(|img| {
                let path = format!("out/{}", output_filename(mat));
                written.push((path.clone(), output_bytes(&img, mat.alpha_mode)));
                path
            });
        outcomes.push(outcome);
    }
    assert_eq!(
        warnings,
        vec![
            String::from("cannot read missing.png"),
            String::from("Images in data views not supported."),
            String::from("cannot read missing.png"),
        ]
    );
    let messages: Vec<Option<String>> =
        outcomes.iter().map(|o| o.as_ref().err().map(|e| e.message())).collect();
    assert_eq!(
        messages,
        vec![
            None,
            Some(String::from("Input maps have inconsistent dimensions: (2, 2) and (4, 1)")),
            Some(String::from("No input maps were provided.")),
            None,
        ]
    );
    let report = RunReport::Completed(result_entries(&outcomes));
    assert_eq!(report.render(), "[\"out/wall_unlit.jpg\",null,null,\"out/unlit_3.png\"]");
    assert_eq!(report.exit_status(), 0);
    assert_eq!(written.len(), 2);
    assert_eq!(written[0].0, "out/wall_unlit.jpg");
    assert_eq!(written[0].1, [200u8, 50, 50].repeat(4));
    assert_eq!(written[1].0, "out/unlit_3.png");
    // No base map: the flat color of the factor, under full occlusion.
    assert_eq!(written[1].1, [255u8, 127, 255, 255].repeat(4));
}
