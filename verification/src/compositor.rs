//! The compositor: base color, then occlusion, then emissive light.
//!
//! Every step works on 8-bit channel values. A channel value is scaled by a
//! factor in binary32 arithmetic and cut back to 8 bits at once, so the
//! truncation of one step is what the next step starts from.

use crate::binary32::{
    lemma_integer_part_monotonic, lemma_of_u8, lemma_ratio_in_unit_interval,
    lemma_times_at_most, lemma_times_in_unit_interval, lemma_times_one, Binary32, ONE_BITS,
};
use crate::dimensions::{
    all_equal, lemma_mismatch_fails, reconciled, validate_dimensions, DimensionError,
};
use crate::material::MaterialDescriptor;
use crate::raster::{Raster, Rgba};
use crate::rounding::lemma_round_zero;
use vstd::arithmetic::div_mod::lemma_basic_div;
use vstd::arithmetic::mul::lemma_mul_basics;
use vstd::arithmetic::power2::{lemma_pow2_pos, pow2};
use vstd::prelude::*;

verus! {

/// A channel value times a factor, as a channel value again.
pub open spec fn scaled(value: u8, factor: Binary32) -> u8 {
    Binary32::of_u8(value).times(factor).channel_value()
}

/// The sum of two channel values, held at 255.
pub open spec fn saturating_sum(a: u8, b: u8) -> u8 {
    if a + b > 255 {
        255
    } else {
        (a + b) as u8
    }
}

/// What the lighten scalar adds to each color channel of a base-color map.
pub open spec fn lighten_amount(lighten_factor: Binary32) -> u8 {
    scaled(255, lighten_factor)
}

/// The pixel of the flat color that stands in for a missing base-color map.
pub open spec fn monocolor_pixel(color_factor: [Binary32; 4]) -> Rgba {
    Rgba {
        r: scaled(255, color_factor[0]),
        g: scaled(255, color_factor[1]),
        b: scaled(255, color_factor[2]),
        a: scaled(255, color_factor[3]),
    }
}

/// A pixel of the base-color map after the base-color factor and the lighten
/// amount are applied.
pub open spec fn tinted_pixel(p: Rgba, color_factor: [Binary32; 4], lighten: u8) -> Rgba {
    Rgba {
        r: saturating_sum(scaled(p.r, color_factor[0]), lighten),
        g: saturating_sum(scaled(p.g, color_factor[1]), lighten),
        b: saturating_sum(scaled(p.b, color_factor[2]), lighten),
        a: scaled(p.a, color_factor[3]),
    }
}

/// The factor by which an occlusion value `o` darkens a pixel: `(o / 255) * strength`.
pub open spec fn occlusion_factor(o: u8, strength: Binary32) -> Binary32 {
    Binary32::of_u8(o).over(Binary32::of_u8(255)).times(strength)
}

/// A pixel darkened by the red channel of the occlusion pixel `occ`.
pub open spec fn occluded_pixel(p: Rgba, occ: Rgba, strength: Binary32) -> Rgba {
    let factor = occlusion_factor(occ.r, strength);
    Rgba { r: scaled(p.r, factor), g: scaled(p.g, factor), b: scaled(p.b, factor), a: p.a }
}

/// A pixel with the light of the emissive pixel `em` added.
pub open spec fn emissive_pixel(p: Rgba, em: Rgba, color: [Binary32; 3]) -> Rgba {
    Rgba {
        r: saturating_sum(p.r, scaled(em.r, color[0])),
        g: saturating_sum(p.g, scaled(em.g, color[1])),
        b: saturating_sum(p.b, scaled(em.b, color[2])),
        a: p.a,
    }
}

/// A raster of `count` pixels of the flat fallback color.
pub open spec fn monocolor(count: nat, color_factor: [Binary32; 4]) -> Seq<Rgba> {
    Seq::new(count, |i: int| monocolor_pixel(color_factor))
}

/// A base-color map with factor and lighten amount applied to every pixel.
pub open spec fn tinted(base: Seq<Rgba>, color_factor: [Binary32; 4], lighten: u8) -> Seq<Rgba> {
    Seq::new(base.len(), |i: int| tinted_pixel(base[i], color_factor, lighten))
}

/// `img` darkened pixel by pixel by `occ`, as far as `occ` reaches.
pub open spec fn occluded(img: Seq<Rgba>, occ: Seq<Rgba>, strength: Binary32) -> Seq<Rgba> {
    Seq::new(
        img.len(),
        |i: int|
            if i < occ.len() {
                occluded_pixel(img[i], occ[i], strength)
            } else {
                img[i]
            },
    )
}

/// `img` with the light of `em` added pixel by pixel, as far as `em` reaches.
pub open spec fn with_emissive(img: Seq<Rgba>, em: Seq<Rgba>, color: [Binary32; 3]) -> Seq<Rgba> {
    Seq::new(
        img.len(),
        |i: int|
            if i < em.len() {
                emissive_pixel(img[i], em[i], color)
            } else {
                img[i]
            },
    )
}

/// The results of scaling each of the 256 channel values by one factor.
fn scale_table(factor: Binary32) -> (table: Vec<u8>)
    ensures
        table@.len() == 256,
        forall|v: u8| #[trigger] table@[v as int] == scaled(v, factor),
{
    let mut table: Vec<u8> = Vec::new();
    let mut v: u16 = 0;
    while v < 256
        invariant
            v <= 256,
            table@.len() == v,
            forall|w: u8| w < v ==> #[trigger] table@[w as int] == scaled(w, factor),
        decreases 256 - v,
    {
        table.push(Binary32::from_u8(v as u8).mul(factor).to_u8());
        v = v + 1;
    }
    table
}

/// Scales one channel value by a factor.
pub fn scale_channel(value: u8, factor: Binary32) -> (v: u8)
    ensures
        v == scaled(value, factor),
{
    Binary32::from_u8(value).mul(factor).to_u8()
}

/// A raster of the flat color `255 * color_factor`, fraction dropped, for a
/// material without a base-color map.
pub fn generate_monocolor(w: u32, h: u32, color_factor: [Binary32; 4]) -> (img: Raster)
    ensures
        img.dims() == (w, h),
        img@ == monocolor((w * h) as nat, color_factor),
{
    let pixel = Rgba {
        r: scale_channel(255, color_factor[0]),
        g: scale_channel(255, color_factor[1]),
        b: scale_channel(255, color_factor[2]),
        a: scale_channel(255, color_factor[3]),
    };
    Raster::from_pixel(w, h, pixel)
}

/// Applies the base-color factor to every pixel of a base-color map, and adds
/// the lighten amount to its color channels, holding each at 255.
pub fn apply_base_color(img: &mut Raster, color_factor: [Binary32; 4], lighten_factor: Binary32)
    ensures
        final(img).dims() == old(img).dims(),
        final(img)@ == tinted(old(img)@, color_factor, lighten_amount(lighten_factor)),
{
    let lighten: u8 = scale_channel(255, lighten_factor);
    let red = scale_table(color_factor[0]);
    let green = scale_table(color_factor[1]);
    let blue = scale_table(color_factor[2]);
    let alpha = scale_table(color_factor[3]);
    let n: usize = img.len();
    let mut i: usize = 0;
    while i < n
        invariant
            i <= n,
            n == old(img)@.len(),
            img@.len() == n,
            img.dims() == old(img).dims(),
            lighten == lighten_amount(lighten_factor),
            red@.len() == 256,
            green@.len() == 256,
            blue@.len() == 256,
            alpha@.len() == 256,
            forall|v: u8| #[trigger] red@[v as int] == scaled(v, color_factor[0]),
            forall|v: u8| #[trigger] green@[v as int] == scaled(v, color_factor[1]),
            forall|v: u8| #[trigger] blue@[v as int] == scaled(v, color_factor[2]),
            forall|v: u8| #[trigger] alpha@[v as int] == scaled(v, color_factor[3]),
            forall|j: int|
                0 <= j < i ==> #[trigger] img@[j] == tinted_pixel(
                    old(img)@[j],
                    color_factor,
                    lighten,
                ),
            forall|j: int| i <= j < n ==> #[trigger] img@[j] == old(img)@[j],
        decreases n - i,
    {
        match img.get(i) {
            Some(p) => {
                let q = Rgba {
                    r: red[p.r as usize].saturating_add(lighten),
                    g: green[p.g as usize].saturating_add(lighten),
                    b: blue[p.b as usize].saturating_add(lighten),
                    a: alpha[p.a as usize],
                };
                img.set(i, q);
            },
            None => {},
        }
        i = i + 1;
    }
    assert(img@ =~= tinted(old(img)@, color_factor, lighten_amount(lighten_factor)));
}

/// `table` holds the results of scaling each channel value by `factor`.
pub open spec fn is_scale_table(table: Seq<u8>, factor: Binary32) -> bool {
    &&& table.len() == 256
    &&& forall|v: u8| #[trigger] table[v as int] == scaled(v, factor)
}

/// The factor for an occlusion value, computed as `(o / 255) * strength`.
pub fn occlusion_scale(o: u8, strength: Binary32) -> (factor: Binary32)
    ensures
        factor == occlusion_factor(o, strength),
{
    Binary32::from_u8(o).div(Binary32::from_u8(255)).mul(strength)
}

/// Multiplies the color channels of every pixel by the occlusion factor of
/// the pixel at the same position of `occlusion_map`, whose red channel
/// holds the occlusion. Alpha is left as it is.
pub fn apply_occlusion(img: &mut Raster, occlusion_map: &Raster, strength: Binary32)
    ensures
        final(img).dims() == old(img).dims(),
        final(img)@ == occluded(old(img)@, occlusion_map@, strength),
{
    let n: usize = img.len();
    let m: usize = occlusion_map.len();
    let limit: usize = if n < m {
        n
    } else {
        m
    };
    // One table for each occlusion value, filled in when the value first occurs.
    let mut rows: Vec<Vec<u8>> = Vec::new();
    let mut k: usize = 0;
    while k < 256
        invariant
            k <= 256,
            rows@.len() == k,
            forall|o: int| 0 <= o < k ==> (#[trigger] rows@[o])@.len() == 0,
        decreases 256 - k,
    {
        rows.push(Vec::new());
        k = k + 1;
    }
    let mut i: usize = 0;
    while i < limit
        invariant
            i <= limit,
            limit <= n,
            limit <= m,
            limit == n || limit == m,
            n == old(img)@.len(),
            m == occlusion_map@.len(),
            img@.len() == n,
            img.dims() == old(img).dims(),
            rows@.len() == 256,
            forall|o: u8|
                (#[trigger] rows@[o as int])@.len() == 0 || is_scale_table(
                    rows@[o as int]@,
                    occlusion_factor(o, strength),
                ),
            forall|j: int|
                0 <= j < i ==> #[trigger] img@[j] == occluded_pixel(
                    old(img)@[j],
                    occlusion_map@[j],
                    strength,
                ),
            forall|j: int| i <= j < n ==> #[trigger] img@[j] == old(img)@[j],
        decreases limit - i,
    {
        match (img.get(i), occlusion_map.get(i)) {
            (Some(p), Some(occ)) => {
                let o: usize = occ.r as usize;
                if rows[o].len() == 0 {
                    let table = scale_table(occlusion_scale(occ.r, strength));
                    rows[o] = table;
                }
                assert(is_scale_table(rows@[occ.r as int]@, occlusion_factor(occ.r, strength)));
                let q = Rgba {
                    r: rows[o][p.r as usize],
                    g: rows[o][p.g as usize],
                    b: rows[o][p.b as usize],
                    a: p.a,
                };
                img.set(i, q);
            },
            _ => {},
        }
        i = i + 1;
    }
    assert(img@ =~= occluded(old(img)@, occlusion_map@, strength));
}

/// Adds to the color channels of every pixel the color of the pixel at the
/// same position of `emissive_map`, scaled by the emissive factor. Each
/// sum is held at 255. Alpha is left as it is.
pub fn apply_emissive(img: &mut Raster, emissive_map: &Raster, color: [Binary32; 3])
    ensures
        final(img).dims() == old(img).dims(),
        final(img)@ == with_emissive(old(img)@, emissive_map@, color),
{
    let n: usize = img.len();
    let m: usize = emissive_map.len();
    let limit: usize = if n < m {
        n
    } else {
        m
    };
    let red = scale_table(color[0]);
    let green = scale_table(color[1]);
    let blue = scale_table(color[2]);
    let mut i: usize = 0;
    while i < limit
        invariant
            i <= limit,
            limit <= n,
            limit <= m,
            limit == n || limit == m,
            n == old(img)@.len(),
            m == emissive_map@.len(),
            img@.len() == n,
            img.dims() == old(img).dims(),
            is_scale_table(red@, color[0]),
            is_scale_table(green@, color[1]),
            is_scale_table(blue@, color[2]),
            forall|j: int|
                0 <= j < i ==> #[trigger] img@[j] == emissive_pixel(
                    old(img)@[j],
                    emissive_map@[j],
                    color,
                ),
            forall|j: int| i <= j < n ==> #[trigger] img@[j] == old(img)@[j],
        decreases limit - i,
    {
        match (img.get(i), emissive_map.get(i)) {
            (Some(p), Some(em)) => {
                let q = Rgba {
                    r: p.r.saturating_add(red[em.r as usize]),
                    g: p.g.saturating_add(green[em.g as usize]),
                    b: p.b.saturating_add(blue[em.b as usize]),
                    a: p.a,
                };
                img.set(i, q);
            },
            _ => {},
        }
        i = i + 1;
    }
    assert(img@ =~= with_emissive(old(img)@, emissive_map@, color));
}

/// The size of a channel map that was loaded, as a sequence of one size or none.
pub open spec fn size_of_loaded(map: Option<Raster>) -> Seq<(u32, u32)> {
    match map {
        Some(img) => seq![img.dims()],
        None => seq![],
    }
}

/// The sizes of the maps that were loaded, in the order base color,
/// occlusion, emissive.
pub open spec fn loaded_dimensions(
    base_map: Option<Raster>,
    occlusion_map: Option<Raster>,
    emissive_map: Option<Raster>,
) -> Seq<(u32, u32)> {
    size_of_loaded(base_map) + size_of_loaded(occlusion_map) + size_of_loaded(emissive_map)
}

/// The pixels of a channel map that was loaded.
pub open spec fn pixels_of_loaded(map: Option<Raster>) -> Option<Seq<Rgba>> {
    match map {
        Some(img) => Some(img@),
        None => None,
    }
}

/// The first layer: the base-color map with its factor and the lighten
/// amount applied, or `count` pixels of the flat fallback color.
pub open spec fn base_layer(
    base: Option<Seq<Rgba>>,
    count: nat,
    color_factor: [Binary32; 4],
    lighten_factor: Binary32,
) -> Seq<Rgba> {
    match base {
        Some(pixels) => tinted(pixels, color_factor, lighten_amount(lighten_factor)),
        None => monocolor(count, color_factor),
    }
}

/// The unlit composite of one material at `count` pixels: the base layer,
/// darkened by the occlusion map if there is one, then brightened by the
/// emissive map if there is one.
pub open spec fn composite(
    mat: MaterialDescriptor,
    base: Option<Seq<Rgba>>,
    occlusion: Option<Seq<Rgba>>,
    emissive: Option<Seq<Rgba>>,
    count: nat,
    lighten_factor: Binary32,
) -> Seq<Rgba> {
    let first = base_layer(base, count, mat.base_color_factor, lighten_factor);
    let second = match occlusion {
        Some(occ) => occluded(first, occ, mat.occlusion_strength),
        None => first,
    };
    match emissive {
        Some(em) => with_emissive(second, em, mat.emissive_factor),
        None => second,
    }
}

/// `res` is what composing the material from these maps comes to: the
/// failure of the size check, or the composite at the common size.
pub open spec fn is_unlit_outcome(
    res: Result<Raster, DimensionError>,
    mat: MaterialDescriptor,
    base_map: Option<Raster>,
    occlusion_map: Option<Raster>,
    emissive_map: Option<Raster>,
    lighten_factor: Binary32,
) -> bool {
    match reconciled(loaded_dimensions(base_map, occlusion_map, emissive_map)) {
        Err(e) => res == Err::<Raster, DimensionError>(e),
        Ok(d) => res matches Ok(img) && img.dims() == d && img@ == composite(
            mat,
            pixels_of_loaded(base_map),
            pixels_of_loaded(occlusion_map),
            pixels_of_loaded(emissive_map),
            (d.0 * d.1) as nat,
            lighten_factor,
        ),
    }
}

/// Composes the unlit texture of one material from the channel maps that
/// were loaded for it.
///
/// The maps must share one size, which is the size of the result; a
/// material for which no map was loaded has no size and fails too. Maps are
/// never resized.
pub fn generate_unlit(
    mat: &MaterialDescriptor,
    base_map: Option<Raster>,
    occlusion_map: Option<Raster>,
    emissive_map: Option<Raster>,
    lighten_factor: Binary32,
) -> (res: Result<Raster, DimensionError>)
    ensures
        is_unlit_outcome(res, *mat, base_map, occlusion_map, emissive_map, lighten_factor),
        res is Ok <==> ({
            let dims = loaded_dimensions(base_map, occlusion_map, emissive_map);
            dims.len() > 0 && all_equal(dims, dims[0])
        }),
{
    let mut dimensions: Vec<(u32, u32)> = Vec::new();
    if let Some(img) = &base_map {
        dimensions.push(img.dimensions());
    }
    if let Some(img) = &occlusion_map {
        dimensions.push(img.dimensions());
    }
    if let Some(img) = &emissive_map {
        dimensions.push(img.dimensions());
    }
    assert(dimensions@ =~= loaded_dimensions(base_map, occlusion_map, emissive_map));
    let (w, h) = match validate_dimensions(dimensions.as_slice()) {
        Ok(d) => d,
        Err(e) => {
            return Err(e);
        },
    };
    let mut unlit_map = match base_map {
        Some(mut img) => {
            apply_base_color(&mut img, mat.base_color_factor, lighten_factor);
            img
        },
        None => generate_monocolor(w, h, mat.base_color_factor),
    };
    if let Some(occ) = &occlusion_map {
        apply_occlusion(&mut unlit_map, occ, mat.occlusion_strength);
    }
    if let Some(em) = &emissive_map {
        apply_emissive(&mut unlit_map, em, mat.emissive_factor);
    }
    Ok(unlit_map)
}

/// The maps of one material, as far as they were loaded.
#[derive(Debug, PartialEq, Eq)]
pub struct MaterialInput {
    pub material: MaterialDescriptor,
    pub base_map: Option<Raster>,
    pub occlusion_map: Option<Raster>,
    pub emissive_map: Option<Raster>,
}

/// Composes every material of a document. The result has one outcome for
/// each material, at the position of the material; the outcome of a
/// material depends on its own maps alone, so a material that fails leaves
/// the others as they are.
pub fn generate_all(inputs: Vec<MaterialInput>, lighten_factor: Binary32) -> (outcomes: Vec<
    Result<Raster, DimensionError>,
>)
    ensures
        outcomes@.len() == inputs@.len(),
        forall|i: int|
            0 <= i < inputs@.len() ==> is_unlit_outcome(
                #[trigger] outcomes@[i],
                inputs@[i].material,
                inputs@[i].base_map,
                inputs@[i].occlusion_map,
                inputs@[i].emissive_map,
                lighten_factor,
            ),
{
    let mut outcomes: Vec<Result<Raster, DimensionError>> = Vec::new();
    let ghost all = inputs@;
    for input in it: inputs
        invariant
            it.seq() == all,
            outcomes@.len() == it.index(),
            forall|i: int|
                0 <= i < it.index() ==> is_unlit_outcome(
                    #[trigger] outcomes@[i],
                    all[i].material,
                    all[i].base_map,
                    all[i].occlusion_map,
                    all[i].emissive_map,
                    lighten_factor,
                ),
    {
        let MaterialInput { material, base_map, occlusion_map, emissive_map } = input;
        let outcome = generate_unlit(
            &material,
            base_map,
            occlusion_map,
            emissive_map,
            lighten_factor,
        );
        outcomes.push(outcome);
    }
    outcomes
}

/// A factor of `1.0` leaves every channel value as it is.
pub proof fn lemma_scaled_by_one(value: u8)
    ensures
        scaled(value, Binary32 { bits: ONE_BITS }) == value,
{
    lemma_of_u8(value);
    lemma_times_one(Binary32::of_u8(value));
}

/// A factor of zero, of either sign, takes every channel value to 0.
pub proof fn lemma_scaled_by_zero(value: u8, factor: Binary32)
    requires
        factor.is_zero(),
    ensures
        scaled(value, factor) == 0,
{
    let x = Binary32::of_u8(value);
    lemma_of_u8(value);
    lemma_mul_basics(x.significand() as int);
    lemma_round_zero(1, x.exponent() + factor.exponent());
    let p = x.times(factor);
    assert(p.is_zero());
    if !p.is_negative() {
        lemma_pow2_pos(149);
        lemma_basic_div(0, pow2(149) as int);
    }
}

/// A material with a base-color map alone, all four base-color factors
/// `1.0` and a lighten scalar of zero comes out as the map itself.
pub proof fn lemma_unit_factors_keep_base(
    mat: MaterialDescriptor,
    base: Seq<Rgba>,
    lighten_factor: Binary32,
)
    requires
        forall|c: int| 0 <= c < 4 ==> (#[trigger] mat.base_color_factor[c]).bits == ONE_BITS,
        lighten_factor.is_zero(),
    ensures
        composite(mat, Some(base), None, None, base.len(), lighten_factor) == base,
{
    let one = Binary32 { bits: ONE_BITS };
    assert(mat.base_color_factor[0] == one);
    assert(mat.base_color_factor[1] == one);
    assert(mat.base_color_factor[2] == one);
    assert(mat.base_color_factor[3] == one);
    lemma_scaled_by_zero(255, lighten_factor);
    let out = composite(mat, Some(base), None, None, base.len(), lighten_factor);
    assert forall|i: int| 0 <= i < base.len() implies out[i] == base[i] by {
        lemma_scaled_by_one(base[i].r);
        lemma_scaled_by_one(base[i].g);
        lemma_scaled_by_one(base[i].b);
        lemma_scaled_by_one(base[i].a);
    }
    assert(out =~= base);
}

/// With a strength from 0 to 1, the occlusion factor `(o / 255) * strength`
/// lies between 0 and 1 for every occlusion value `o`.
pub proof fn lemma_occlusion_factor_in_unit_interval(o: u8, strength: Binary32)
    requires
        strength.in_unit_interval(),
    ensures
        occlusion_factor(o, strength).in_unit_interval(),
{
    lemma_ratio_in_unit_interval(o, 255);
    lemma_times_in_unit_interval(Binary32::of_u8(o).over(Binary32::of_u8(255)), strength);
}

/// A factor from 0 to 1 never raises a channel value.
pub proof fn lemma_scaled_never_brightens(value: u8, factor: Binary32)
    requires
        factor.in_unit_interval(),
    ensures
        scaled(value, factor) <= value,
{
    let x = Binary32::of_u8(value);
    lemma_of_u8(value);
    lemma_times_at_most(x, factor);
    lemma_integer_part_monotonic(x.times(factor), x);
}

/// With a strength from 0 to 1, occlusion never raises a color channel.
pub proof fn lemma_occlusion_never_brightens(p: Rgba, occ: Rgba, strength: Binary32)
    requires
        strength.in_unit_interval(),
    ensures
        ({
            let q = occluded_pixel(p, occ, strength);
            q.r <= p.r && q.g <= p.g && q.b <= p.b && q.a == p.a
        }),
{
    let factor = occlusion_factor(occ.r, strength);
    lemma_occlusion_factor_in_unit_interval(occ.r, strength);
    lemma_scaled_never_brightens(p.r, factor);
    lemma_scaled_never_brightens(p.g, factor);
    lemma_scaled_never_brightens(p.b, factor);
}

/// Adding emitted light never wraps: each color channel becomes the smaller
/// of 255 and the sum of the channel and the light, and alpha is kept.
pub proof fn lemma_emissive_saturates(p: Rgba, em: Rgba, color: [Binary32; 3])
    ensures
        ({
            let q = emissive_pixel(p, em, color);
            &&& q.r == vstd::math::min(255, p.r + scaled(em.r, color[0]))
            &&& q.g == vstd::math::min(255, p.g + scaled(em.g, color[1]))
            &&& q.b == vstd::math::min(255, p.b + scaled(em.b, color[2]))
            &&& q.a == p.a
            &&& q.r >= p.r && q.g >= p.g && q.b >= p.b
        }),
{
}

/// Without any map, the composite of `count` pixels is the flat color of
/// the base-color factor: every pixel is `255 * factor`, fraction dropped,
/// channel by channel.
pub proof fn lemma_composite_without_maps(
    mat: MaterialDescriptor,
    count: nat,
    lighten_factor: Binary32,
)
    ensures
        composite(mat, None, None, None, count, lighten_factor).len() == count,
        forall|i: int|
            0 <= i < count ==> #[trigger] composite(mat, None, None, None, count, lighten_factor)[i]
                == monocolor_pixel(mat.base_color_factor),
{
}

/// Two loaded maps of different sizes make the material fail with a
/// mismatch, whichever two they are and whatever else the material holds.
pub proof fn lemma_unequal_maps_fail(
    res: Result<Raster, DimensionError>,
    mat: MaterialDescriptor,
    base_map: Option<Raster>,
    occlusion_map: Option<Raster>,
    emissive_map: Option<Raster>,
    lighten_factor: Binary32,
)
    requires
        is_unlit_outcome(res, mat, base_map, occlusion_map, emissive_map, lighten_factor),
        ({
            ||| base_map is Some && occlusion_map is Some && base_map->Some_0.dims()
                != occlusion_map->Some_0.dims()
            ||| base_map is Some && emissive_map is Some && base_map->Some_0.dims()
                != emissive_map->Some_0.dims()
            ||| occlusion_map is Some && emissive_map is Some && occlusion_map->Some_0.dims()
                != emissive_map->Some_0.dims()
        }),
    ensures
        res matches Err(DimensionError::Mismatch { expected, found }) && expected != found,
{
    let dims = loaded_dimensions(base_map, occlusion_map, emissive_map);
    let b: int = if base_map is Some {
        1
    } else {
        0
    };
    let o: int = if occlusion_map is Some {
        1
    } else {
        0
    };
    if base_map is Some && occlusion_map is Some && base_map->Some_0.dims()
        != occlusion_map->Some_0.dims() {
        lemma_mismatch_fails(dims, 0, 1);
    } else if base_map is Some && emissive_map is Some && base_map->Some_0.dims()
        != emissive_map->Some_0.dims() {
        lemma_mismatch_fails(dims, 0, b + o);
    } else {
        lemma_mismatch_fails(dims, b, b + o);
    }
}

/// A material with a base-color map alone, all four base-color factors
/// `1.0` and a lighten scalar of zero succeeds, and its composite has the
/// size and the pixels of the map.
pub proof fn lemma_unit_factors_outcome(
    res: Result<Raster, DimensionError>,
    mat: MaterialDescriptor,
    base_map: Raster,
    lighten_factor: Binary32,
)
    requires
        is_unlit_outcome(res, mat, Some(base_map), None, None, lighten_factor),
        forall|c: int| 0 <= c < 4 ==> (#[trigger] mat.base_color_factor[c]).bits == ONE_BITS,
        lighten_factor.is_zero(),
        base_map@.len() == base_map.dims().0 * base_map.dims().1,
    ensures
        res matches Ok(img) && img.dims() == base_map.dims() && img@ == base_map@,
{
    let dims = loaded_dimensions(Some(base_map), None, None);
    assert(dims =~= seq![base_map.dims()]);
    assert(all_equal(dims, dims[0]));
    lemma_unit_factors_keep_base(mat, base_map@, lighten_factor);
}

} // verus!
