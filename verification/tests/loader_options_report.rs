use gltf_unlit_generator::binary32::Binary32;
use gltf_unlit_generator::dimensions::DimensionError;
use gltf_unlit_generator::loader::{channel_from_decode, load_if_exists, LoadStep, LoadedChannel};
use gltf_unlit_generator::material::ChannelRef;
use gltf_unlit_generator::options::{default_lighten, validate_lighten, ConfigError};
use gltf_unlit_generator::raster::{Raster, Rgba};
use gltf_unlit_generator::report::{
    result_entries, result_entry, MaterialFailure, ResultEntry, RunReport,
};

fn num(x: f32) -> Binary32 {
    Binary32::from_bits(x.to_bits())
}

#[test]
fn a_channel_without_reference_is_absent() {
    let step = load_if_exists(&None);
    assert_eq!(step, LoadStep::Done(LoadedChannel { map: None, warning: None }));
}

#[test]
fn an_embedded_image_is_skipped_with_a_warning() {
    let step = load_if_exists(&Some(ChannelRef::Embedded));
    assert_eq!(
        step,
        LoadStep::Done(LoadedChannel {
            map: None,
            warning: Some(String::from("Images in data views not supported.")),
        })
    );
}

#[test]
fn an_external_image_is_to_be_opened() {
    let reference = Some(ChannelRef::External { uri: String::from("textures/wall.png") });
    let step = load_if_exists(&reference);
    assert_eq!(step, LoadStep::Open { uri: String::from("textures/wall.png") });
}

#[test]
fn a_failed_decode_becomes_a_warning() {
    let img = Raster::from_pixel(1, 1, Rgba { r: 1, g: 2, b: 3, a: 4 });
    assert_eq!(
        channel_from_decode(Ok(img.clone())),
        LoadedChannel { map: Some(img), warning: None }
    );
    assert_eq!(
        channel_from_decode(Err(String::from("unexpected end of file"))),
        LoadedChannel { map: None, warning: Some(String::from("unexpected end of file")) }
    );
}

#[test]
fn lighten_must_lie_between_zero_and_one() {
    assert_eq!(default_lighten().to_bits(), 0.0f32.to_bits());
    assert_eq!(validate_lighten(default_lighten()), Ok(default_lighten()));
    assert_eq!(validate_lighten(num(0.0)), Ok(num(0.0)));
    assert_eq!(validate_lighten(num(-0.0)), Ok(num(-0.0)));
    assert_eq!(validate_lighten(num(0.3)), Ok(num(0.3)));
    assert_eq!(validate_lighten(num(1.0)), Ok(num(1.0)));
    assert_eq!(validate_lighten(num(1.000_000_1)), Err(ConfigError::LightenOutOfRange));
    assert_eq!(validate_lighten(num(-0.001)), Err(ConfigError::LightenOutOfRange));
    assert_eq!(validate_lighten(num(2.0)), Err(ConfigError::LightenOutOfRange));
    assert_eq!(validate_lighten(num(f32::INFINITY)), Err(ConfigError::LightenOutOfRange));
    assert_eq!(validate_lighten(num(f32::NAN)), Err(ConfigError::LightenOutOfRange));
    assert_eq!(
        ConfigError::LightenOutOfRange.message(),
        "Lighten value must be between 0.0 and 1.0."
    );
}

#[test]
fn entries_follow_the_outcomes() {
    let ok: Result<String, MaterialFailure> = Ok(String::from("out/a_unlit.jpg"));
    let failed: Result<String, MaterialFailure> =
        Err(MaterialFailure::Dimensions(DimensionError::NoInputMaps));
    assert_eq!(
        result_entry(&ok),
        ResultEntry { ok: true, path: Some(String::from("out/a_unlit.jpg")) }
    );
    assert_eq!(result_entry(&failed), ResultEntry { ok: false, path: None });
    let write: Result<String, MaterialFailure> =
        Err(MaterialFailure::Write { message: String::from("disk full") });
    let entries = result_entries(&vec![failed.clone(), ok.clone(), write, ok.clone()]);
    assert_eq!(entries.len(), 4);
    assert_eq!(
        entries,
        vec![
            ResultEntry { ok: false, path: None },
            ResultEntry { ok: true, path: Some(String::from("out/a_unlit.jpg")) },
            ResultEntry { ok: false, path: None },
            ResultEntry { ok: true, path: Some(String::from("out/a_unlit.jpg")) },
        ]
    );
    assert_eq!(result_entries(&vec![]).len(), 0);
}

#[test]
fn failures_have_messages() {
    assert_eq!(
        MaterialFailure::Dimensions(DimensionError::Mismatch { expected: (1, 2), found: (3, 4) })
            .message(),
        "Input maps have inconsistent dimensions: (1, 2) and (3, 4)"
    );
    assert_eq!(MaterialFailure::Write { message: String::from("disk full") }.message(), "disk full");
}

#[test]
fn a_completed_run_is_written_as_an_array() {
    let report = RunReport::Completed(vec![
        ResultEntry { ok: true, path: Some(String::from("out/a_unlit.jpg")) },
        ResultEntry { ok: false, path: None },
        ResultEntry { ok: true, path: Some(String::from("C:\\out\\\"b\"_unlit.png")) },
    ]);
    assert_eq!(
        report.render(),
        "[\"out/a_unlit.jpg\",null,\"C:\\\\out\\\\\\\"b\\\"_unlit.png\"]"
    );
    assert_eq!(report.exit_status(), 0);
    assert_eq!(RunReport::Completed(vec![]).render(), "[]");
    assert_eq!(RunReport::Completed(vec![]).exit_status(), 0);
}

#[test]
fn a_failed_run_is_written_as_null() {
    assert_eq!(RunReport::Failed.render(), "null");
    assert_eq!(RunReport::Failed.exit_status(), 1);
}
