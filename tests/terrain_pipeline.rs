use terrain_mesh::colorize::{band_of, band_srgb, get_height_color, ColorSpectrum, Srgba};
use terrain_mesh::decimal::Decimal;
use terrain_mesh::grid::import;
use terrain_mesh::numeral::parse_token;
use terrain_mesh::terrain::{
    build_terrain, displace, displacement, isqrt, largest_elevation, restore, TerrainError,
};

fn d(mantissa: i64, frac_digits: u32) -> Decimal {
    Decimal { mantissa, frac_digits }
}

fn whole(values: &[i64]) -> Vec<Decimal> {
    values.iter().map(|v| d(*v, 0)).collect()
}

fn rgb(r: u16, g: u16, b: u16) -> Srgba {
    Srgba { r, g, b, a: 1000 }
}

fn token(text: &str) -> Decimal {
    let bytes = text.as_bytes();
    parse_token(bytes, 0, bytes.len())
}

#[test]
fn nodata_becomes_zero() {
    assert_eq!(import(b"1 -9999 3", 3), whole(&[1, 0, 3]));
    assert_eq!(token("-9999"), d(0, 0));
    assert_eq!(token("-9999.0"), d(0, 0));
    assert_eq!(token("-9998"), d(-9998, 0));
}

#[test]
fn rows_are_cut_to_res_from_the_left() {
    assert_eq!(import(b"1 2 3 4 5\n6 7 8 9", 3), whole(&[1, 2, 3, 6, 7, 8]));
    assert_eq!(import(b"1 2\n3", 3), whole(&[1, 2, 3]));
    assert_eq!(import(b"1 2 3", 0), Vec::<Decimal>::new());
}

#[test]
fn malformed_tokens_yield_zero() {
    assert_eq!(import(b"ncols 4\n5 x 6", 2), whole(&[0, 4, 5, 0]));
    assert_eq!(token("abc"), d(0, 0));
    assert_eq!(token("-"), d(0, 0));
    assert_eq!(token("."), d(0, 0));
    assert_eq!(token("1.2.3"), d(0, 0));
}

#[test]
fn decimal_tokens_are_exact() {
    assert_eq!(token("12.5"), d(125, 1));
    assert_eq!(token("-0.25"), d(-25, 2));
    assert_eq!(token("+7"), d(7, 0));
    assert_eq!(token("5."), d(5, 0));
    assert_eq!(token(".5"), d(5, 1));
    assert_eq!(token("123456789012345678"), d(123456789012345678, 0));
}

#[test]
fn exponent_tokens() {
    assert_eq!(import(b"1e3", 1), whole(&[1000]));
    assert_eq!(token("1e3"), d(1000, 0));
    assert_eq!(token("2.5E-1"), d(25, 2));
    assert_eq!(token("1e+2"), d(100, 0));
    assert_eq!(token("-1.5e1"), d(-15, 0));
    assert_eq!(token("-9.999e3"), d(0, 0));
    assert_eq!(token("1e17"), d(100000000000000000, 0));
    assert_eq!(token("1e-20"), d(0, 18));
    assert_eq!(token("0e99999999999999999999999"), d(0, 0));
    assert_eq!(token("1e99999999999999999999999"), d(0, 0));
    assert_eq!(token("1e-99999999999999999999999"), d(0, 18));
    assert_eq!(token("1e"), d(0, 0));
    assert_eq!(token("e5"), d(0, 0));
    assert_eq!(token("1e5x"), d(0, 0));
}

#[test]
fn surplus_fraction_digits_are_dropped() {
    assert_eq!(token("0.12345678901234567890"), d(123456789012345678, 18));
    assert_eq!(token("-0.2000000000000000009"), d(-200000000000000000, 18));
}

#[test]
fn out_of_range_values_yield_zero() {
    assert_eq!(token("1e18"), d(0, 0));
    assert_eq!(token("1234567890123456789"), d(0, 0));
    assert_eq!(token("999999999999999999"), d(999999999999999999, 0));
}

#[test]
fn blanks_and_line_ends() {
    assert_eq!(import(b"  1   2\t3 \r\n4 5 6\r\n", 3), whole(&[1, 2, 3, 4, 5, 6]));
    assert_eq!(import(b"\n\n1\n\n", 3), whole(&[1]));
    assert_eq!(import(b"", 3), Vec::<Decimal>::new());
}

#[test]
fn band_boundaries() {
    let imhof = ColorSpectrum::Imhof;
    assert_eq!(get_height_color(d(-1, 3), imhof), rgb(50, 125, 75));
    assert_eq!(get_height_color(d(0, 0), imhof), rgb(654, 772, 541));
    assert_eq!(get_height_color(d(99999, 3), imhof), rgb(654, 772, 541));
    assert_eq!(get_height_color(d(100, 0), imhof), rgb(753, 863, 634));
    assert_eq!(get_height_color(d(200, 0), imhof), rgb(882, 879, 624));
    assert_eq!(get_height_color(d(500, 0), imhof), rgb(855, 783, 592));
    assert_eq!(get_height_color(d(1000, 0), imhof), rgb(829, 743, 576));
    assert_eq!(get_height_color(d(2000, 0), imhof), rgb(754, 643, 523));
    assert_eq!(get_height_color(d(4000, 0), imhof), rgb(677, 546, 473));
    assert_eq!(get_height_color(d(8999999, 3), imhof), rgb(677, 546, 473));
    assert_eq!(get_height_color(d(9000, 0), imhof), rgb(1000, 1000, 1000));
    assert_eq!(get_height_color(d(90000, 1), imhof), rgb(1000, 1000, 1000));
    assert_eq!(band_of(&d(-9998, 0)), 0);
    assert_eq!(band_of(&d(1, 2)), 1);
    assert_eq!(band_of(&d(123456, 0)), 8);
    assert_eq!(band_srgb(8), rgb(1000, 1000, 1000));
}

#[test]
fn sea_level_differs_between_ramps() {
    let plain = get_height_color(d(0, 0), ColorSpectrum::Imhof);
    let modified = get_height_color(d(0, 2), ColorSpectrum::ImhofModified);
    assert_eq!(plain, rgb(654, 772, 541));
    assert_eq!(modified, rgb(25, 75, 275));
    assert_ne!(plain, modified);
    assert_eq!(get_height_color(d(1, 3), ColorSpectrum::ImhofModified), rgb(654, 772, 541));
    assert_eq!(get_height_color(d(-1, 3), ColorSpectrum::ImhofModified), rgb(50, 125, 75));
}

#[test]
fn largest_is_the_true_maximum() {
    let list = vec![d(3, 0), d(-1, 0), d(75, 1), d(750, 2), d(2, 0)];
    assert_eq!(largest_elevation(&list), d(75, 1));
    let negatives = vec![d(-5, 0), d(-3, 0), d(-30, 1), d(-4, 0)];
    assert_eq!(largest_elevation(&negatives), d(-3, 0));
    assert_eq!(largest_elevation(&vec![d(42, 0)]), d(42, 0));
    let mut seed: u64 = 12345;
    for _ in 0..20 {
        let mut values = Vec::new();
        for _ in 0..15 {
            seed = seed.wrapping_mul(6364136223846793005).wrapping_add(1442695040888963407);
            values.push(((seed >> 33) % 2001) as i64 - 1000);
        }
        let expected = *values.iter().max().unwrap();
        assert_eq!(largest_elevation(&whole(&values)), d(expected, 0));
    }
}

#[test]
fn end_to_end_resampling() {
    let data = b"1 2 3\n4 5 -9999\n7 8 9";
    let loaded = import(data, 3);
    assert_eq!(loaded, whole(&[1, 2, 3, 4, 5, 0, 7, 8, 9]));
    let mut samples = loaded.clone();
    let heights = displace(&mut samples, 9);
    let raw: Vec<Decimal> = heights.iter().map(|h| restore(*h)).collect();
    assert_eq!(raw, whole(&[9, 8, 7, 0, 5, 4, 3, 2, 1]));
    assert_eq!(heights[0], d(9, 2));
    assert_eq!(restore(heights[0]), d(9, 0));
    assert!(samples.is_empty());
    let surface = build_terrain(data, 9, ColorSpectrum::ImhofModified).unwrap();
    assert_eq!(surface.width, 3);
    assert_eq!(surface.sample_count, 9);
    assert_eq!(surface.heights, heights);
    assert_eq!(surface.colors[0], rgb(654, 772, 541));
    assert_eq!(surface.colors[3], rgb(25, 75, 275));
    assert_eq!(surface.peak, d(9, 0));
}

#[test]
fn shortfall_leaves_flat_vertices() {
    let mut samples = whole(&[1, 2, 3, 4, 5]);
    let heights = displace(&mut samples, 9);
    assert_eq!(heights.len(), 9);
    assert_eq!(&heights[..5], &[d(5, 2), d(4, 2), d(3, 2), d(2, 2), d(1, 2)]);
    for h in &heights[5..] {
        assert_eq!(*h, d(0, 2));
    }
    let surface = build_terrain(b"1 2\n3 4\n5", 9, ColorSpectrum::Imhof).unwrap();
    assert_eq!(surface.heights[4], d(1, 2));
    assert_eq!(surface.heights[8], d(0, 2));
}

#[test]
fn surplus_samples_stay_unconsumed() {
    let mut samples = whole(&[1, 2, 3, 4]);
    let heights = displace(&mut samples, 2);
    assert_eq!(heights, vec![d(4, 2), d(3, 2)]);
    assert_eq!(samples, whole(&[1, 2]));
}

#[test]
fn displacement_divides_by_one_hundred() {
    assert_eq!(displacement(d(125, 1)), d(125, 3));
    assert_eq!(restore(d(125, 3)), d(125, 1));
}

#[test]
fn integer_square_roots() {
    assert_eq!(isqrt(0), 0);
    assert_eq!(isqrt(1), 1);
    assert_eq!(isqrt(8), 2);
    assert_eq!(isqrt(9), 3);
    assert_eq!(isqrt(33_663_204), 5802);
    assert_eq!(isqrt(usize::MAX), (1usize << (usize::BITS / 2)) - 1);
}

#[test]
fn empty_grid_is_refused() {
    assert!(matches!(
        build_terrain(b"", 9, ColorSpectrum::Imhof),
        Err(TerrainError::NoElevationData)
    ));
    assert!(matches!(
        build_terrain(b"1 2 3", 0, ColorSpectrum::Imhof),
        Err(TerrainError::NoElevationData)
    ));
}
