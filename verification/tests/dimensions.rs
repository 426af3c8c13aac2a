use gltf_unlit_generator::dimensions::{validate_dimensions, DimensionError};

#[test]
fn no_maps_have_no_size() {
    assert_eq!(validate_dimensions(&[]), Err(DimensionError::NoInputMaps));
}

#[test]
fn one_map_gives_its_own_size() {
    assert_eq!(validate_dimensions(&[(640, 480)]), Ok((640, 480)));
    assert_eq!(validate_dimensions(&[(0, 0)]), Ok((0, 0)));
}

#[test]
fn equal_maps_give_the_common_size() {
    assert_eq!(validate_dimensions(&[(16, 8), (16, 8)]), Ok((16, 8)));
    assert_eq!(validate_dimensions(&[(16, 8), (16, 8), (16, 8)]), Ok((16, 8)));
}

#[test]
fn a_mismatch_names_both_sizes() {
    assert_eq!(
        validate_dimensions(&[(16, 8), (8, 16)]),
        Err(DimensionError::Mismatch { expected: (16, 8), found: (8, 16) })
    );
    assert_eq!(
        validate_dimensions(&[(2, 2), (2, 2), (2, 3)]),
        Err(DimensionError::Mismatch { expected: (2, 2), found: (2, 3) })
    );
    // The first map that differs is the one reported.
    assert_eq!(
        validate_dimensions(&[(2, 2), (4, 4), (2, 3)]),
        Err(DimensionError::Mismatch { expected: (2, 2), found: (4, 4) })
    );
    // Width and height are not interchangeable.
    assert_eq!(
        validate_dimensions(&[(1, 2), (2, 1)]),
        Err(DimensionError::Mismatch { expected: (1, 2), found: (2, 1) })
    );
}

#[test]
fn messages_read_as_diagnostics() {
    assert_eq!(DimensionError::NoInputMaps.message(), "No input maps were provided.");
    assert_eq!(
        DimensionError::Mismatch { expected: (1024, 512), found: (4294967295, 0) }.message(),
        "Input maps have inconsistent dimensions: (1024, 512) and (4294967295, 0)"
    );
}
