use distance_field::extrema::Extrema;
use distance_field::generator::{
    band_count, band_distances, capture_height, generate_distances, generate_image, pixel_distance,
    row_distances, DistanceSearch, Dist,
};
use distance_field::mesh::Mesh;
use distance_field::raster::HeightImage;
use distance_field::settings::{CaptureHeight, GenSettings, ImgRepeat, UNITS_PER_CELL};
use distance_field::spiral::generate_spiral;

fn image(width: usize, height: usize, pixels: Vec<u8>) -> HeightImage {
    HeightImage::new(width, height, pixels).unwrap()
}

fn field(img: &HeightImage, settings: &GenSettings) -> (Mesh, Vec<Dist>) {
    let mesh = Mesh::generate(img, settings).unwrap();
    let ext = Extrema::get_image_extrema(img).unwrap();
    let distances = generate_distances(&mesh, settings, &ext);
    (mesh, distances)
}

#[test]
fn spiral_is_sorted_and_complete() {
    for r in 0..6usize {
        let s = generate_spiral(r);
        let side = 2 * r as i64 + 1;
        assert_eq!(s.len() as i64, side * side);
        assert_eq!(s[0], (0, 0));
        for pair in s.windows(2) {
            let a = pair[0].0 * pair[0].0 + pair[0].1 * pair[0].1;
            let b = pair[1].0 * pair[1].0 + pair[1].1 * pair[1].1;
            assert!(a <= b);
        }
        let ri = r as i64;
        for dy in -ri..=ri {
            for dx in -ri..=ri {
                assert_eq!(s.iter().filter(|p| **p == (dx, dy)).count(), 1);
            }
        }
    }
}

#[test]
fn flat_field_is_uniform_vertical_distance() {
    let img = image(5, 4, vec![100; 20]);
    for repeat in [ImgRepeat::Repeat, ImgRepeat::Clamp] {
        let settings = GenSettings::new_from_values((6, repeat, CaptureHeight::UserDefined(200), 1000));
        let (_, distances) = field(&img, &settings);
        let dz = (Mesh::compute_height(200, &settings) - Mesh::compute_height(100, &settings)) as u128;
        assert_eq!(distances.len(), 20);
        for d in &distances {
            assert_eq!(d.dst_sq, dz * dz);
        }
        let out = generate_image((5, 4), &distances);
        assert!(out.iter().all(|p| *p == 0));
    }
}

fn brute_force(mesh: &Mesh, cz: i64, x: usize, y: usize) -> u128 {
    let r = mesh.usable_radius as i64;
    let k = mesh.skirt as i64;
    let (w, h) = (mesh.dimensions.0 as i64, mesh.dimensions.1 as i64);
    let ew = mesh.ext_dim.0 as i64;
    let cx = (2 * x as i128 + 1) * 255000;
    let cy = (2 * y as i128 + 1) * 255000;
    let mut best = u128::MAX;
    for dy in -r..=r {
        for dx in -r..=r {
            let (mx, my) = (x as i64 + dx, y as i64 + dy);
            if mx < -k || mx >= w + k || my < -k || my >= h + k {
                continue;
            }
            let v = mesh.verts[((my + k) * ew + mx + k) as usize];
            let d = ((v.x - cx) * (v.x - cx) + (v.y - cy) * (v.y - cy) + (v.z - cz as i128) * (v.z - cz as i128)) as u128;
            best = best.min(d);
        }
    }
    best
}

#[test]
fn early_exit_matches_brute_force() {
    let pixels = vec![0, 40, 90, 255, 30, 200, 10, 60, 120, 5, 250, 70, 180, 220, 15, 100];
    let img = image(4, 4, pixels);
    for repeat in [ImgRepeat::Repeat, ImgRepeat::Clamp] {
        let settings = GenSettings::new_from_values((2, repeat, CaptureHeight::Generated, 1000));
        let mesh = Mesh::generate(&img, &settings).unwrap();
        assert_eq!(mesh.usable_radius, 2);
        let ext = Extrema::get_image_extrema(&img).unwrap();
        let search = DistanceSearch::new(&mesh, &settings, &ext);
        for y in 0..4 {
            for x in 0..4 {
                let fast = pixel_distance(&mesh, &search.spiral, search.capture_z, x, y);
                assert_eq!(fast, brute_force(&mesh, search.capture_z, x, y));
            }
        }
    }
}

#[test]
fn zero_image_gives_white_output() {
    let img = image(2, 2, vec![0; 4]);
    let settings = GenSettings::new_from_values((1, ImgRepeat::Repeat, CaptureHeight::Generated, 1000));
    let (mesh, distances) = field(&img, &settings);
    assert!(mesh.ext_dim.0 >= 4 && mesh.ext_dim.1 >= 4);
    assert!(mesh.verts.iter().all(|v| v.z == 0));
    assert!(distances.iter().all(|d| d.dst_sq == 0));
    assert_eq!(generate_image((2, 2), &distances), vec![255; 4]);
}

#[test]
fn single_bright_pixel_is_brightest() {
    let mut pixels = vec![0u8; 25];
    // Raster row 1, column 3: mesh row 5 - 1 - 1 = 3.
    pixels[5 + 3] = 255;
    let img = image(5, 5, pixels);
    let settings = GenSettings::new_from_values((4, ImgRepeat::Repeat, CaptureHeight::Generated, 1000));
    let (_, distances) = field(&img, &settings);
    let out = generate_image((5, 5), &distances);
    let bright = out[5 + 3];
    assert_eq!(bright, 255);
    for (i, p) in out.iter().enumerate() {
        if i != 5 + 3 {
            assert!(*p < bright);
        }
    }
}

#[test]
fn records_are_row_major_and_bands_agree() {
    let mut pixels = vec![0u8; 70 * 3];
    for (i, p) in pixels.iter_mut().enumerate() {
        *p = (i * 7 % 256) as u8;
    }
    let img = image(3, 70, pixels);
    let settings = GenSettings::new_from_values((3, ImgRepeat::Clamp, CaptureHeight::Generated, 1000));
    let (mesh, distances) = field(&img, &settings);
    assert_eq!(distances.len(), 210);
    for (i, d) in distances.iter().enumerate() {
        assert_eq!((d.x, d.y), (i % 3, i / 3));
    }
    assert_eq!(band_count(70), 2);
    assert_eq!(band_count(64), 1);
    assert_eq!(band_count(0), 0);
    let ext = Extrema::get_image_extrema(&img).unwrap();
    let search = DistanceSearch::new(&mesh, &settings, &ext);
    let mut joined = band_distances(&mesh, &search, 0);
    assert_eq!(joined.len(), 64 * 3);
    joined.extend(band_distances(&mesh, &search, 1));
    assert_eq!(joined, distances);
    assert_eq!(row_distances(&mesh, &search, 69), distances[207..].to_vec());
}

#[test]
fn capture_height_uses_basis_value() {
    let ext = Extrema { min: 3, max: 51 };
    let generated = GenSettings::new_from_values((10, ImgRepeat::Repeat, CaptureHeight::Generated, 1000));
    assert_eq!(capture_height(&generated, &ext), Mesh::compute_height(51, &generated));
    assert_eq!(capture_height(&generated, &ext), 2 * 51 * 10 * 1000);
    let user = GenSettings::new_from_values((10, ImgRepeat::Repeat, CaptureHeight::UserDefined(255), 1000));
    assert_eq!(capture_height(&user, &ext) as i128, 10 * UNITS_PER_CELL as i128);
}

fn rec(dst_sq: u128) -> Dist {
    Dist { x: 0, y: 0, dst_sq }
}

#[test]
fn encoder_rounds_and_flips() {
    // One row: 0, half and full distance.
    let out = generate_image((3, 1), &vec![rec(0), rec(1), rec(4)]);
    assert_eq!(out, vec![255, 127, 0]);
    // Two rows: mesh row 0 is the bottom raster row.
    let out = generate_image((1, 2), &vec![rec(0), rec(9)]);
    assert_eq!(out, vec![0, 255]);
    // sqrt(1/9) * 255 = 85.
    let out = generate_image((2, 1), &vec![rec(1), rec(9)]);
    assert_eq!(out, vec![170, 0]);
    assert_eq!(generate_image((2, 2), &vec![rec(0); 4]), vec![255; 4]);
    assert!(generate_image((0, 0), &vec![]).is_empty());
}
